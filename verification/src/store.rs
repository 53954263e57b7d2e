//! The record store: one record per user and course level, overwritten on
//! every new submission, plus the ranking and passed-course queries.
//!
//! Entries keep first-submission order, both across users and inside one
//! user's records. That order is also the documented tie-break of
//! [`RecordStore::rank`]: users with equal life stand in the order their
//! first submission arrived.

use crate::course::{level_in_catalog, Course, Courses};
use crate::keymap::{
    find_key, keys_unique, lemma_find_key, lemma_find_key_at, lemma_push_key, lemma_update_key,
    lemma_upsert, upsert, value_at,
};
use crate::record::{lookup_level, Record, Status, UserModel, UserRecords};
use crate::simulate::{run_attempt, simulate};
use crate::submission::{Results, Rule};
use vstd::prelude::*;

verus! {

/// Why a request was rejected: the level names no course of the catalog.
#[derive(Clone, Copy, Debug, PartialEq, Eq, Structural)]
pub enum CourseError {
    InvalidLevel,
}

/// What a submission hands back for the confirmation message: the course's
/// display name and starting life, and the record just stored.
#[derive(Clone, Debug)]
pub struct SubmitOutcome {
    pub course_name: String,
    pub course_life: u32,
    pub record: Record,
}

/// The whole store's model: user entries in first-submission order.
pub type StoreModel = Seq<(u64, UserModel)>;

/// The record store: every user's records, keyed by account id.
pub struct RecordStore {
    entries: Vec<(u64, UserRecords)>,
}

impl View for RecordStore {
    type V = StoreModel;

    closed spec fn view(&self) -> StoreModel {
        self.entries@.map_values(|p: (u64, UserRecords)| (p.0, p.1@))
    }
}

/// Store well-formedness: account ids are unique, and so are the levels
/// inside each user's records.
pub open spec fn store_wf(m: StoreModel) -> bool {
    &&& keys_unique(m)
    &&& forall|i: int| 0 <= i < m.len() ==> keys_unique(#[trigger] m[i].1.records)
}

/// The record stored for `id` at `level`, if any.
pub open spec fn lookup_record(m: StoreModel, id: u64, level: u32) -> Option<Record> {
    match value_at(m, id) {
        None => None,
        Some(u) => value_at(u.records, level),
    }
}

/// The store after a submission: the user's display name is refreshed and
/// the record for the level replaced; a first-time user is appended at the
/// back with only this record.
pub open spec fn submit_model(
    m: StoreModel,
    id: u64,
    name: Seq<char>,
    level: u32,
    rec: Record,
) -> StoreModel {
    match find_key(m, id) {
        Some(i) => m.update(
            i,
            (id, UserModel { fullname: name, records: upsert(m[i].1.records, level, rec) }),
        ),
        None => m.push((id, UserModel { fullname: name, records: seq![(level, rec)] })),
    }
}

/// What one submission does to every lookup: the submitted pair now holds
/// the new record under the new name, and nothing else moved.
pub proof fn lemma_submit_model(m: StoreModel, id: u64, name: Seq<char>, level: u32, rec: Record)
    requires
        store_wf(m),
    ensures
        store_wf(submit_model(m, id, name, level, rec)),
        lookup_record(submit_model(m, id, name, level, rec), id, level) == Some(rec),
        value_at(submit_model(m, id, name, level, rec), id) matches Some(u) && u.fullname == name,
        forall|id2: u64|
            id2 != id ==> value_at(submit_model(m, id, name, level, rec), id2) == value_at(m, id2),
        forall|l2: u32|
            l2 != level ==> lookup_record(submit_model(m, id, name, level, rec), id, l2)
                == lookup_record(m, id, l2),
{
    lemma_find_key(m, id);
    let m2 = submit_model(m, id, name, level, rec);
    match find_key(m, id) {
        Some(i) => {
            let recs2 = upsert(m[i].1.records, level, rec);
            lemma_upsert(m[i].1.records, level, rec);
            lemma_update_key(m, i, id, (UserModel { fullname: name, records: recs2 }));
            assert forall|j: int| 0 <= j < m2.len() implies keys_unique(
                #[trigger] m2[j].1.records,
            ) by {
                if j != i {
                    assert(m2[j] == m[j]);
                }
            }
        },
        None => {
            let u = UserModel { fullname: name, records: seq![(level, rec)] };
            lemma_push_key(m, id, u);
            assert(keys_unique(u.records));
            assert forall|j: int| 0 <= j < m2.len() implies keys_unique(
                #[trigger] m2[j].1.records,
            ) by {
                if j < m.len() {
                    assert(m2[j] == m[j]);
                }
            }
            assert(value_at(u.records, level) == Some(rec));
            assert forall|l2: u32| l2 != level implies lookup_record(m2, id, l2) == lookup_record(
                m,
                id,
                l2,
            ) by {
                lemma_find_key(u.records, l2);
                match find_key(u.records, l2) {
                    Some(j) => {
                        assert(u.records[j].0 == l2);
                    },
                    None => {},
                }
            }
        },
    }
}

/// One accepted submission keeps every stored level inside a catalog
/// that holds the submitted level.
pub proof fn lemma_submit_model_levels(
    m: StoreModel,
    id: u64,
    name: Seq<char>,
    level: u32,
    rec: Record,
    len: nat,
)
    requires
        store_wf(m),
        levels_in_catalog(m, len),
        level_in_catalog(len, level),
    ensures
        levels_in_catalog(submit_model(m, id, name, level, rec), len),
{
    let m2 = submit_model(m, id, name, level, rec);
    lemma_find_key(m, id);
    match find_key(m, id) {
        Some(i) => {
            let s = m[i].1.records;
            let u = upsert(s, level, rec);
            lemma_upsert(s, level, rec);
            assert forall|a: int, b: int|
                0 <= a < m2.len() && 0 <= b < m2[a].1.records.len() implies level_in_catalog(
                len,
                (m2[a].1.records[b]).0,
            ) by {
                if a == i {
                    if b < s.len() {
                        assert(u[b].0 == s[b].0);
                        assert(level_in_catalog(len, (m[i].1.records[b]).0));
                    } else {
                        assert(find_key(s, level) is None);
                        assert(u == s.push((level, rec)));
                        assert(u[b].0 == level);
                    }
                } else {
                    assert(m2[a] == m[a]);
                    assert(level_in_catalog(len, (m[a].1.records[b]).0));
                }
            }
        },
        None => {
            assert forall|a: int, b: int|
                0 <= a < m2.len() && 0 <= b < m2[a].1.records.len() implies level_in_catalog(
                len,
                (m2[a].1.records[b]).0,
            ) by {
                if a < m.len() {
                    assert(m2[a] == m[a]);
                    assert(level_in_catalog(len, (m[a].1.records[b]).0));
                } else {
                    assert(m2[a].1.records == seq![(level, rec)]);
                    assert(m2[a].1.records[b].0 == level);
                }
            }
        },
    }
}

impl RecordStore {
    /// An empty store, as each new calendar period starts with.
    pub fn new() -> (r: RecordStore)
        ensures
            r@ == Seq::<(u64, UserModel)>::empty(),
            store_wf(r@),
    {
        let r = RecordStore { entries: Vec::new() };
        proof {
            assert(r@ =~= Seq::<(u64, UserModel)>::empty());
        }
        r
    }

    /// Index of the entry for `id`, scanning from the front.
    fn find_user_index(&self, id: u64) -> (r: Option<usize>)
        ensures
            match r {
                Some(i) => find_key(self@, id) == Some(i as int) && i < self.entries@.len(),
                None => find_key(self@, id) is None,
            },
    {
        let n = self.entries.len();
        for i in 0..n
            invariant
                n == self.entries@.len(),
                forall|j: int| 0 <= j < i ==> self@[j].0 != id,
        {
            if self.entries[i].0 == id {
                proof {
                    lemma_find_key_at(self@, id, i as int);
                }
                return Some(i);
            }
        }
        proof {
            lemma_find_key(self@, id);
            if find_key(self@, id) is Some {
                let i = find_key(self@, id)->Some_0;
            }
        }
        None
    }

    /// The record stored for `user_id` at `level`; `None` is the normal
    /// "no record yet" outcome, not an error.
    pub fn get_record(&self, user_id: u64, level: u32) -> (r: Option<Record>)
        ensures
            r == lookup_record(self@, user_id, level),
    {
        match self.find_user_index(user_id) {
            Some(i) => {
                proof {
                    lemma_find_key(self@, user_id);
                }
                lookup_level(&self.entries[i].1.records, level)
            },
            None => None,
        }
    }

    /// Run the simulator for the course at `level` and store the outcome,
    /// overwriting any earlier record for this user and level and
    /// refreshing the user's display name. A level outside the catalog is
    /// rejected and the store is left untouched.
    pub fn submit(
        &mut self,
        user_id: u64,
        fullname: String,
        level: u32,
        courses: &Courses,
        rule: Rule,
        results: &Results,
    ) -> (r: Result<SubmitOutcome, CourseError>)
        requires
            store_wf(old(self)@),
        ensures
            store_wf(final(self)@),
            levels_in_catalog(old(self)@, courses@.len()) ==> levels_in_catalog(
                final(self)@,
                courses@.len(),
            ),
            match r {
                Err(e) => e == CourseError::InvalidLevel && !level_in_catalog(
                    courses@.len(),
                    level,
                ) && final(self)@ == old(self)@,
                Ok(o) => {
                    let course = courses@[level as int - 1];
                    let sim = simulate(course.life, course.heal, rule, results@);
                    let rec = Record { life: sim.0, status: sim.1 };
                    &&& level_in_catalog(courses@.len(), level)
                    &&& final(self)@ == submit_model(old(self)@, user_id, fullname@, level, rec)
                    &&& o.course_name@ == course.name@
                    &&& o.course_life == course.life
                    &&& o.record == rec
                    &&& o.record.life <= course.life
                },
            },
    {
        if !(1 <= level && (level as usize) <= courses.len()) {
            return Err(CourseError::InvalidLevel);
        }
        let course = &courses[(level - 1) as usize];
        let (remain, status) = run_attempt(course.life, course.heal, rule, results);
        proof {
            crate::simulate::lemma_simulate_life_bound(course.life, course.heal, rule, results@);
        }
        let rec = Record { life: remain, status };
        let ghost name_model = fullname@;
        let found = self.find_user_index(user_id);
        match found {
            Some(i) => {
                proof {
                    lemma_find_key(old(self)@, user_id);
                }
                let ghost old_records = self.entries@[i as int].1.records@;
                let entry = &mut self.entries[i];
                entry.1.fullname = fullname;
                let pos = find_level_index(&entry.1.records, level);
                match pos {
                    Some(j) => {
                        entry.1.records[j] = (level, rec);
                    },
                    None => {
                        entry.1.records.push((level, rec));
                    },
                }
                proof {
                    assert(upsert(old_records, level, rec) =~= self.entries@[i as int].1.records@);
                    assert(old(self)@[i as int].1.records == old_records);
                    assert(self@ =~~= submit_model(
                        old(self)@,
                        user_id,
                        name_model,
                        level,
                        rec,
                    ));
                    lemma_submit_model(old(self)@, user_id, name_model, level, rec);
                    if levels_in_catalog(old(self)@, courses@.len()) {
                        lemma_submit_model_levels(
                            old(self)@,
                            user_id,
                            name_model,
                            level,
                            rec,
                            courses@.len(),
                        );
                    }
                }
                Ok(
                    SubmitOutcome {
                        course_name: course.name.clone(),
                        course_life: course.life,
                        record: rec,
                    },
                )
            },
            None => {
                let mut recs: Vec<(u32, Record)> = Vec::new();
                recs.push((level, rec));
                self.entries.push((user_id, UserRecords { fullname, records: recs }));
                proof {
                    assert(self@ =~~= submit_model(
                        old(self)@,
                        user_id,
                        name_model,
                        level,
                        rec,
                    ));
                    lemma_submit_model(old(self)@, user_id, name_model, level, rec);
                    if levels_in_catalog(old(self)@, courses@.len()) {
                        lemma_submit_model_levels(
                            old(self)@,
                            user_id,
                            name_model,
                            level,
                            rec,
                            courses@.len(),
                        );
                    }
                }
                Ok(
                    SubmitOutcome {
                        course_name: course.name.clone(),
                        course_life: course.life,
                        record: rec,
                    },
                )
            },
        }
    }
}

/// The model of a vector of (display name, life) pairs.
pub open spec fn pairs_model(s: Seq<(String, u32)>) -> Seq<(Seq<char>, u32)> {
    s.map_values(|p: (String, u32)| (p.0@, p.1))
}

/// The (display name, life) pairs of users whose stored record at `level`
/// passed, in store order.
pub open spec fn passed_pairs(m: StoreModel, level: u32) -> Seq<(Seq<char>, u32)>
    decreases m.len(),
{
    if m.len() == 0 {
        Seq::empty()
    } else {
        let rest = passed_pairs(m.drop_first(), level);
        match value_at(m[0].1.records, level) {
            Some(rec) => if rec.status is Passed {
                seq![(m[0].1.fullname, rec.life)] + rest
            } else {
                rest
            },
            None => rest,
        }
    }
}

/// Insert a pair into a descending-by-life sequence, after every pair with
/// strictly more life and before every pair with at most as much, so that
/// on ties the inserted pair keeps priority.
pub open spec fn insert_desc(
    x: (Seq<char>, u32),
    s: Seq<(Seq<char>, u32)>,
) -> Seq<(Seq<char>, u32)>
    decreases s.len(),
{
    if s.len() == 0 {
        seq![x]
    } else if s[0].1 > x.1 {
        seq![s[0]] + insert_desc(x, s.drop_first())
    } else {
        seq![x] + s
    }
}

/// Stable descending sort by life: pairs are inserted back to front, so
/// pairs with equal life keep the order they arrived in.
pub open spec fn sort_desc(s: Seq<(Seq<char>, u32)>) -> Seq<(Seq<char>, u32)>
    decreases s.len(),
{
    if s.len() == 0 {
        Seq::empty()
    } else {
        insert_desc(s[0], sort_desc(s.drop_first()))
    }
}

/// The ranking for a level: the passed users' (name, life) pairs, life
/// descending, ties in store order.
pub open spec fn rank_model(m: StoreModel, level: u32) -> Seq<(Seq<char>, u32)> {
    sort_desc(passed_pairs(m, level))
}

/// Life never increases along the sequence.
pub open spec fn sorted_desc(s: Seq<(Seq<char>, u32)>) -> bool {
    forall|i: int, j: int| 0 <= i <= j < s.len() ==> s[i].1 >= s[j].1
}

/// `insert_desc` adds exactly its pair.
proof fn lemma_insert_desc_len(x: (Seq<char>, u32), s: Seq<(Seq<char>, u32)>)
    ensures
        insert_desc(x, s).len() == s.len() + 1,
    decreases s.len(),
{
    if s.len() > 0 && s[0].1 > x.1 {
        lemma_insert_desc_len(x, s.drop_first());
    }
}

/// Every pair of the insertion's result is the inserted pair or one of the
/// sequence's own.
proof fn lemma_insert_desc_contains(
    x: (Seq<char>, u32),
    s: Seq<(Seq<char>, u32)>,
    k: int,
)
    requires
        0 <= k < insert_desc(x, s).len(),
    ensures
        insert_desc(x, s)[k] == x || s.contains(insert_desc(x, s)[k]),
    decreases s.len(),
{
    if s.len() == 0 {
    } else if s[0].1 > x.1 {
        if k == 0 {
            assert(s[0] == s[0]);
        } else {
            lemma_insert_desc_contains(x, s.drop_first(), k - 1);
            let y = insert_desc(x, s)[k];
            if y != x {
                let j = choose|j: int|
                    0 <= j < s.drop_first().len() && s.drop_first()[j] == y;
                assert(s[j + 1] == y);
            }
        }
    } else {
        if k > 0 {
            assert(s[k - 1] == insert_desc(x, s)[k]);
        }
    }
}

/// Inserting into a descending sequence keeps it descending.
proof fn lemma_insert_desc_sorted(x: (Seq<char>, u32), s: Seq<(Seq<char>, u32)>)
    requires
        sorted_desc(s),
    ensures
        sorted_desc(insert_desc(x, s)),
    decreases s.len(),
{
    lemma_insert_desc_len(x, s);
    if s.len() == 0 {
    } else if s[0].1 > x.1 {
        assert forall|i: int, j: int|
            0 <= i <= j < s.drop_first().len() implies s.drop_first()[i].1
            >= s.drop_first()[j].1 by {
            assert(s.drop_first()[i] == s[i + 1]);
            assert(s.drop_first()[j] == s[j + 1]);
        }
        lemma_insert_desc_sorted(x, s.drop_first());
        let r = insert_desc(x, s);
        let tail = insert_desc(x, s.drop_first());
        assert forall|i: int, j: int| 0 <= i <= j < r.len() implies r[i].1 >= r[j].1 by {
            if i == 0 && j > 0 {
                lemma_insert_desc_contains(x, s.drop_first(), j - 1);
                let y = tail[j - 1];
                assert(r[j] == y);
                if y != x {
                    let k = choose|k: int|
                        0 <= k < s.drop_first().len() && s.drop_first()[k] == y;
                    assert(s.drop_first()[k] == s[k + 1]);
                    assert(s[0].1 >= s[k + 1].1);
                }
            } else if i > 0 {
                assert(r[i] == tail[i - 1]);
                assert(r[j] == tail[j - 1]);
            }
        }
    } else {
        assert forall|i: int, j: int|
            0 <= i <= j < insert_desc(x, s).len() implies insert_desc(x, s)[i].1 >= insert_desc(
                x,
                s,
            )[j].1 by {
            if i == 0 && j > 0 {
                assert(insert_desc(x, s)[j] == s[j - 1]);
                assert(s[0].1 <= x.1);
            } else if i > 0 {
                assert(insert_desc(x, s)[i] == s[i - 1]);
                assert(insert_desc(x, s)[j] == s[j - 1]);
            }
        }
    }
}

/// The ranking is descending by life — the general half of the ordering
/// law; the tie-break is pinned by `rank_model` itself.
pub proof fn lemma_rank_sorted(m: StoreModel, level: u32)
    ensures
        sorted_desc(rank_model(m, level)),
        rank_model(m, level).len() == passed_pairs(m, level).len(),
{
    lemma_sort_desc_sorted(passed_pairs(m, level));
}

/// Sorting yields a descending sequence of the same length.
proof fn lemma_sort_desc_sorted(s: Seq<(Seq<char>, u32)>)
    ensures
        sorted_desc(sort_desc(s)),
        sort_desc(s).len() == s.len(),
    decreases s.len(),
{
    if s.len() > 0 {
        lemma_sort_desc_sorted(s.drop_first());
        lemma_insert_desc_sorted(s[0], sort_desc(s.drop_first()));
        lemma_insert_desc_len(s[0], sort_desc(s.drop_first()));
    }
}

/// Every pair of the sorted sequence is one of the unsorted sequence's.
proof fn lemma_sort_desc_contains(s: Seq<(Seq<char>, u32)>, k: int)
    requires
        0 <= k < sort_desc(s).len(),
    ensures
        s.contains(sort_desc(s)[k]),
    decreases s.len(),
{
    assert(s.len() > 0);
    let y = sort_desc(s)[k];
    lemma_insert_desc_contains(s[0], sort_desc(s.drop_first()), k);
    if y == s[0] {
    } else {
        let j = choose|j: int|
            0 <= j < sort_desc(s.drop_first()).len() && sort_desc(s.drop_first())[j] == y;
        lemma_sort_desc_contains(s.drop_first(), j);
        let k2 = choose|k2: int|
            0 <= k2 < s.drop_first().len() && s.drop_first()[k2] == y;
        assert(s[k2 + 1] == y);
    }
}

/// Whether some user's stored record at `level` passed with exactly the
/// pair's name and life.
pub open spec fn pair_from_passed(m: StoreModel, level: u32, p: (Seq<char>, u32)) -> bool {
    exists|i: int|
        0 <= i < m.len() && (#[trigger] m[i].1).fullname == p.0 && value_at(m[i].1.records, level)
            == Some(Record { life: p.1, status: Status::Passed })
}

/// Every pair listed by `passed_pairs` belongs to a user whose stored
/// record at the level passed.
proof fn lemma_passed_pairs_witness(m: StoreModel, level: u32, p: (Seq<char>, u32))
    requires
        passed_pairs(m, level).contains(p),
    ensures
        pair_from_passed(m, level, p),
    decreases m.len(),
{
    assert(m.len() > 0);
    let rest = passed_pairs(m.drop_first(), level);
    let head_passed = match value_at(m[0].1.records, level) {
        Some(rec) => rec.status is Passed,
        None => false,
    };
    if head_passed && p == (m[0].1.fullname, value_at(m[0].1.records, level)->Some_0.life) {
        let rec = value_at(m[0].1.records, level)->Some_0;
        assert(rec == Record { life: p.1, status: Status::Passed });
        assert(0 <= 0 < m.len() && m[0].1.fullname == p.0 && value_at(m[0].1.records, level)
            == Some(Record { life: p.1, status: Status::Passed }));
    } else {
        let k = choose|k: int| 0 <= k < passed_pairs(m, level).len() && passed_pairs(m, level)[k]
            == p;
        if head_passed {
            assert(rest[k - 1] == p);
        }
        assert(rest.contains(p));
        lemma_passed_pairs_witness(m.drop_first(), level, p);
        let i = choose|i: int|
            0 <= i < m.drop_first().len() && (#[trigger] m.drop_first()[i].1).fullname == p.0
                && value_at(m.drop_first()[i].1.records, level) == Some(
                Record { life: p.1, status: Status::Passed },
            );
        assert(m[i + 1] == m.drop_first()[i]);
        assert((m[i + 1].1).fullname == p.0);
    }
}

/// The ranking never includes a pair that does not come from a passed
/// record: whoever appears in it has, at that level, a stored record with
/// status Passed and exactly the listed life.
pub proof fn lemma_rank_excludes_failed(m: StoreModel, level: u32)
    ensures
        forall|k: int|
            0 <= k < rank_model(m, level).len() ==> pair_from_passed(
                m,
                level,
                #[trigger] rank_model(m, level)[k],
            ),
{
    assert forall|k: int| 0 <= k < rank_model(m, level).len() implies pair_from_passed(
        m,
        level,
        #[trigger] rank_model(m, level)[k],
    ) by {
        lemma_sort_desc_contains(passed_pairs(m, level), k);
        lemma_passed_pairs_witness(m, level, rank_model(m, level)[k]);
    }
}

/// Insert a pair into a vector kept descending by life, after every pair
/// with strictly more life.
fn insert_ranked(ranked: &mut Vec<(String, u32)>, x: (String, u32))
    ensures
        pairs_model(final(ranked)@) == insert_desc((x.0@, x.1), pairs_model(old(ranked)@)),
{
    let ghost sm = pairs_model(ranked@);
    let n = ranked.len();
    let mut pos: usize = 0;
    while pos < n && ranked[pos].1 > x.1
        invariant
            n == ranked@.len(),
            0 <= pos <= n,
            sm == pairs_model(ranked@),
            forall|j: int| 0 <= j < pos ==> sm[j].1 > x.1,
        decreases n - pos,
    {
        proof {
            assert(sm[pos as int] == (ranked@[pos as int].0@, ranked@[pos as int].1));
        }
        pos = pos + 1;
    }
    proof {
        if (pos as int) < sm.len() {
            assert(sm[pos as int] == (ranked@[pos as int].0@, ranked@[pos as int].1));
        }
        lemma_insert_desc_at((x.0@, x.1), sm, pos as int);
        sm.insert_ensures(pos as int, (x.0@, x.1));
        ranked@.insert_ensures(pos as int, x);
    }
    ranked.insert(pos, x);
    proof {
        assert(pairs_model(ranked@) =~~= sm.insert(pos as int, (x.0@, x.1)));
    }
}

/// Where the scan of `insert_desc` stops, the result is a plain insertion
/// at that position.
proof fn lemma_insert_desc_at(x: (Seq<char>, u32), s: Seq<(Seq<char>, u32)>, pos: int)
    requires
        0 <= pos <= s.len(),
        forall|j: int| 0 <= j < pos ==> s[j].1 > x.1,
        pos < s.len() ==> s[pos].1 <= x.1,
    ensures
        insert_desc(x, s) == s.insert(pos, x),
    decreases pos,
{
    if pos == 0 {
        assert(insert_desc(x, s) =~= s.insert(0, x));
    } else {
        assert forall|j: int| 0 <= j < pos - 1 implies s.drop_first()[j].1 > x.1 by {
            assert(s.drop_first()[j] == s[j + 1]);
        }
        assert(pos - 1 < s.drop_first().len() ==> s.drop_first()[pos - 1] == s[pos]);
        lemma_insert_desc_at(x, s.drop_first(), pos - 1);
        assert(insert_desc(x, s) =~= s.insert(pos, x));
    }
}

impl RecordStore {
    /// The ranking for a course level: every user whose stored record at
    /// that level passed, as (display name, life left) pairs, ordered by
    /// life descending; users with equal life keep first-submission order.
    /// An empty vector is the normal "no record yet" outcome. A level
    /// outside the catalog is rejected.
    pub fn rank(&self, level: u32, courses: &Courses) -> (r: Result<
        Vec<(String, u32)>,
        CourseError,
    >)
        ensures
            match r {
                Err(e) => e == CourseError::InvalidLevel && !level_in_catalog(
                    courses@.len(),
                    level,
                ),
                Ok(v) => level_in_catalog(courses@.len(), level) && pairs_model(v@) == rank_model(
                    self@,
                    level,
                ),
            },
    {
        if !(1 <= level && (level as usize) <= courses.len()) {
            return Err(CourseError::InvalidLevel);
        }
        let mut filtered: Vec<(String, u32)> = Vec::new();
        let n = self.entries.len();
        proof {
            assert(self@.skip(0) =~= self@);
            assert(pairs_model(filtered@) =~= Seq::<(Seq<char>, u32)>::empty());
        }
        for i in 0..n
            invariant
                n == self.entries@.len(),
                passed_pairs(self@, level) == pairs_model(filtered@) + passed_pairs(
                    self@.skip(i as int),
                    level,
                ),
        {
            proof {
                assert(self@.skip(i as int)[0] == self@[i as int]);
                assert(self@.skip(i as int).drop_first() =~= self@.skip(i as int + 1));
            }
            let ghost fm_before = pairs_model(filtered@);
            match lookup_level(&self.entries[i].1.records, level) {
                Some(rc) => {
                    if rc.status == Status::Passed {
                        filtered.push((self.entries[i].1.fullname.clone(), rc.life));
                        proof {
                            assert(pairs_model(filtered@) =~~= fm_before.push(
                                (self@[i as int].1.fullname, rc.life),
                            ));
                            assert(fm_before.push((self@[i as int].1.fullname, rc.life))
                                + passed_pairs(self@.skip(i as int + 1), level) =~~= fm_before + (
                            seq![(self@[i as int].1.fullname, rc.life)] + passed_pairs(
                                self@.skip(i as int + 1),
                                level,
                            )));
                        }
                    }
                },
                None => {},
            }
        }
        proof {
            assert(passed_pairs(self@.skip(n as int), level) =~= Seq::<(Seq<char>, u32)>::empty());
            assert(pairs_model(filtered@) + passed_pairs(self@.skip(n as int), level)
                =~= pairs_model(filtered@));
        }
        let ghost fm = pairs_model(filtered@);
        let mut ranked: Vec<(String, u32)> = Vec::new();
        proof {
            assert(fm.skip(fm.len() as int) =~= Seq::<(Seq<char>, u32)>::empty());
            assert(pairs_model(ranked@) =~= Seq::<(Seq<char>, u32)>::empty());
            assert(fm.take(fm.len() as int) =~= fm);
        }
        while filtered.len() > 0
            invariant
                pairs_model(filtered@) == fm.take(filtered@.len() as int),
                filtered@.len() <= fm.len(),
                pairs_model(ranked@) == sort_desc(fm.skip(filtered@.len() as int)),
            decreases filtered.len(),
    {
            let ghost l = filtered@.len() as int;
            let ghost pre = filtered@;
            let x = filtered.pop().unwrap();
            proof {
                assert(pairs_model(filtered@) =~= fm.take(l - 1));
                assert(pairs_model(pre)[l - 1] == (pre[l - 1].0@, pre[l - 1].1));
                assert((x.0@, x.1) == fm[l - 1]);
                assert(fm.skip(l - 1)[0] == fm[l - 1]);
                assert(fm.skip(l - 1).drop_first() =~= fm.skip(l));
            }
            insert_ranked(&mut ranked, x);
        }
        proof {
            assert(fm.skip(0) =~= fm);
        }
        Ok(ranked)
    }
}

/// The model of a vector of names.
pub open spec fn names_model(s: Seq<String>) -> Seq<Seq<char>> {
    s.map_values(|t: String| t@)
}

/// Every level stored anywhere in the store names a course of a catalog
/// with `len` courses.
pub open spec fn levels_in_catalog(m: StoreModel, len: nat) -> bool {
    forall|i: int, j: int|
        0 <= i < m.len() && 0 <= j < m[i].1.records.len() ==> level_in_catalog(
            len,
            (#[trigger] m[i].1.records[j]).0,
        )
}

/// The names of the courses one user passed, in first-submission order.
pub open spec fn passed_names(records: Seq<(u32, Record)>, courses: Seq<Course>) -> Seq<Seq<char>>
    decreases records.len(),
{
    if records.len() == 0 {
        Seq::empty()
    } else {
        let rest = passed_names(records.drop_first(), courses);
        if records[0].1.status is Passed {
            seq![courses[records[0].0 as int - 1].name@] + rest
        } else {
            rest
        }
    }
}

/// Submitting twice for the same user and level leaves exactly one record
/// for that pair, and it is the second submission's.
pub proof fn lemma_submit_overwrite(
    m: StoreModel,
    id: u64,
    name1: Seq<char>,
    name2: Seq<char>,
    level: u32,
    rec1: Record,
    rec2: Record,
)
    requires
        store_wf(m),
    ensures
        ({
            let m2 = submit_model(submit_model(m, id, name1, level, rec1), id, name2, level, rec2);
            &&& store_wf(m2)
            &&& lookup_record(m2, id, level) == Some(rec2)
            &&& exists|i: int|
                0 <= i < m2.len() && (#[trigger] m2[i]).0 == id && exactly_one_level(
                    m2[i].1.records,
                    level,
                    rec2,
                )
        }),
{
    lemma_submit_model(m, id, name1, level, rec1);
    let m1 = submit_model(m, id, name1, level, rec1);
    lemma_submit_model(m1, id, name2, level, rec2);
    let m2 = submit_model(m1, id, name2, level, rec2);
    lemma_find_key(m2, id);
    match find_key(m2, id) {
        Some(i) => {
            let u = m2[i].1;
            lemma_find_key(u.records, level);
            match find_key(u.records, level) {
                Some(j) => {
                    assert(u.records[j].0 == level && u.records[j].1 == rec2);
                    assert forall|k: int|
                        0 <= k < u.records.len() && k != j implies u.records[k].0 != level by {
                        if k < j {
                            assert(u.records[k].0 != u.records[j].0);
                        } else {
                            assert(u.records[j].0 != u.records[k].0);
                        }
                    }
                    assert(exactly_one_level(u.records, level, rec2));
                    assert(0 <= i < m2.len() && m2[i].0 == id && exactly_one_level(
                        m2[i].1.records,
                        level,
                        rec2,
                    ));
                },
                None => {
                    assert(false);
                },
            }
        },
        None => {
            assert(false);
        },
    }
}

/// Exactly one pair of the sequence holds the level, and it holds `rec`.
pub open spec fn exactly_one_level(records: Seq<(u32, Record)>, level: u32, rec: Record) -> bool {
    exists|j: int|
        0 <= j < records.len() && (#[trigger] records[j]) == (level, rec) && forall|k: int|
            0 <= k < records.len() && k != j ==> records[k].0 != level
}

impl RecordStore {
    /// The entries in store order, for snapshotting.
    pub fn entries(&self) -> (r: &Vec<(u64, UserRecords)>)
        ensures
            r@.map_values(|p: (u64, UserRecords)| (p.0, p.1@)) == self@,
    {
        &self.entries
    }

    /// Rebuild a store from loaded entries. The entries are accepted only
    /// when user ids and each user's levels are unique, as a snapshot
    /// written from this store always has them.
    pub fn from_entries(entries: Vec<(u64, UserRecords)>) -> (r: Option<RecordStore>)
        ensures
            ({
                let m = entries@.map_values(|p: (u64, UserRecords)| (p.0, p.1@));
                match r {
                    Some(store) => store@ == m && store_wf(m),
                    None => !store_wf(m),
                }
            }),
    {
        let ghost m = entries@.map_values(|p: (u64, UserRecords)| (p.0, p.1@));
        let n = entries.len();
        for i in 0..n
            invariant
                n == entries@.len(),
                m == entries@.map_values(|p: (u64, UserRecords)| (p.0, p.1@)),
                forall|a: int, b: int| 0 <= a < b < i ==> m[a].0 != m[b].0,
                forall|a: int| 0 <= a < i ==> keys_unique(#[trigger] m[a].1.records),
        {
            for j in 0..i
                invariant
                    i < n == entries@.len(),
                    m == entries@.map_values(|p: (u64, UserRecords)| (p.0, p.1@)),
                    forall|b: int| 0 <= b < j ==> m[b].0 != m[i as int].0,
            {
                if entries[j].0 == entries[i].0 {
                    proof {
                        assert(m[j as int].0 == m[i as int].0);
                        assert(!keys_unique(m));
                    }
                    return None;
                }
            }
            let recs = &entries[i].1.records;
            let c = recs.len();
            for a in 0..c
                invariant
                    i < n == entries@.len(),
                    c == recs@.len(),
                    recs@ == m[i as int].1.records,
                    i < m.len(),
                    m == entries@.map_values(|p: (u64, UserRecords)| (p.0, p.1@)),
                    forall|p: int, q: int| 0 <= p < q < a ==> recs@[p].0 != recs@[q].0,
            {
                for b in 0..a
                    invariant
                        i < n == entries@.len(),
                        a < c == recs@.len(),
                        recs@ == m[i as int].1.records,
                        i < m.len(),
                        m == entries@.map_values(|p: (u64, UserRecords)| (p.0, p.1@)),
                        forall|p: int| 0 <= p < b ==> recs@[p].0 != recs@[a as int].0,
                {
                    if recs[b].0 == recs[a].0 {
                        proof {
                            assert(!keys_unique(m[i as int].1.records));
                        }
                        return None;
                    }
                }
            }
        }
        let store = RecordStore { entries };
        proof {
            assert(store@ == m);
        }
        Some(store)
    }

    /// Every user's passed course names: one entry per user in store
    /// order, the display name first, then the names of the courses whose
    /// stored record passed, in first-submission order. Users who passed
    /// nothing appear with an empty list, as the broadcast shows everyone.
    pub fn list_passed(&self, courses: &Courses) -> (r: Vec<(String, Vec<String>)>)
        requires
            levels_in_catalog(self@, courses@.len()),
        ensures
            r@.len() == self@.len(),
            forall|i: int| 0 <= i < r@.len() ==> (#[trigger] r@[i]).0@ == self@[i].1.fullname,
            forall|i: int|
                0 <= i < r@.len() ==> names_model((#[trigger] r@[i]).1@) == passed_names(
                    self@[i].1.records,
                    courses@,
                ),
    {
        let mut r: Vec<(String, Vec<String>)> = Vec::new();
        let n = self.entries.len();
        for i in 0..n
            invariant
                n == self.entries@.len(),
                levels_in_catalog(self@, courses@.len()),
                r@.len() == i,
                forall|k: int| 0 <= k < i ==> (#[trigger] r@[k]).0@ == self@[k].1.fullname,
                forall|k: int|
                    0 <= k < i ==> names_model((#[trigger] r@[k]).1@) == passed_names(
                        self@[k].1.records,
                        courses@,
                    ),
        {
            let recs = &self.entries[i].1.records;
            let mut names: Vec<String> = Vec::new();
            let m = recs.len();
            proof {
                assert(recs@.skip(0) =~= recs@);
                assert(names_model(names@) =~= Seq::<Seq<char>>::empty());
                assert(self@[i as int].1.records == recs@);
            }
            for j in 0..m
                invariant
                    m == recs@.len(),
                    recs@ == self@[i as int].1.records,
                    i < self@.len(),
                    levels_in_catalog(self@, courses@.len()),
                    courses@.len() == courses.len(),
                    passed_names(recs@, courses@) == names_model(names@) + passed_names(
                        recs@.skip(j as int),
                        courses@,
                    ),
            {
                proof {
                    assert(recs@.skip(j as int)[0] == recs@[j as int]);
                    assert(recs@.skip(j as int).drop_first() =~= recs@.skip(j as int + 1));
                    assert(level_in_catalog(courses@.len(), recs@[j as int].0));
                }
                let ghost nm_before = names_model(names@);
                let pair = &recs[j];
                if pair.1.status == Status::Passed {
                    let level = pair.0;
                    names.push(courses[(level - 1) as usize].name.clone());
                    proof {
                        assert(names_model(names@) =~~= nm_before.push(
                            courses@[level as int - 1].name@,
                        ));
                        assert(nm_before.push(courses@[level as int - 1].name@) + passed_names(
                            recs@.skip(j as int + 1),
                            courses@,
                        ) =~~= nm_before + (seq![courses@[level as int - 1].name@] + passed_names(
                            recs@.skip(j as int + 1),
                            courses@,
                        )));
                    }
                }
            }
            proof {
                assert(passed_names(recs@.skip(m as int), courses@) =~= Seq::<Seq<char>>::empty());
                assert(names_model(names@) + passed_names(recs@.skip(m as int), courses@)
                    =~= names_model(names@));
            }
            r.push((self.entries[i].1.fullname.clone(), names));
        }
        r
    }
}

/// Index of the record for `level`, scanning from the front.
fn find_level_index(records: &Vec<(u32, Record)>, level: u32) -> (r: Option<usize>)
    ensures
        match r {
            Some(j) => find_key(records@, level) == Some(j as int) && j < records@.len(),
            None => find_key(records@, level) is None,
        },
{
    let n = records.len();
    for i in 0..n
        invariant
            n == records@.len(),
            forall|j: int| 0 <= j < i ==> records@[j].0 != level,
    {
        if records[i].0 == level {
            proof {
                lemma_find_key_at(records@, level, i as int);
            }
            return Some(i);
        }
    }
    proof {
        lemma_find_key(records@, level);
        if find_key(records@, level) is Some {
            let i = find_key(records@, level)->Some_0;
        }
    }
    None
}

} // verus!
