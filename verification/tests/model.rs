use std::collections::HashMap;

use sneakattackproto::structures::{
    derive_sectors, BoxColor, Category, Class, Entry, Rally, Stage, StageTime, Uid, UidMap,
};

fn st(tenths: u64) -> StageTime {
    StageTime { tenths }
}

fn entry(number: usize, times: Vec<u64>, splits: Option<Vec<Vec<u64>>>) -> Entry {
    let n = times.len();
    Entry {
        category: Category::National,
        number,
        driver_uid: number * 10,
        codriver_uid: number * 10 + 1,
        class: Class::O4WD,
        times: times.into_iter().map(st).collect(),
        colors: vec![BoxColor::Empty; n],
        splits: splits.map(|rows| {
            rows.into_iter().map(|row| row.into_iter().map(st).collect()).collect()
        }),
    }
}

fn uid(id: usize, first: &str, last: &str) -> Uid {
    Uid { uid: id, first: first.to_string(), last: last.to_string() }
}

fn uids_for(rally: &Rally) -> UidMap {
    let mut map = HashMap::new();
    for e in &rally.entries {
        map.insert(e.driver_uid, uid(e.driver_uid, "D", &format!("Drv{}", e.number)));
        map.insert(e.codriver_uid, uid(e.codriver_uid, "C", &format!("Cod{}", e.number)));
    }
    map
}

#[test]
fn entry_splits_with_finish_appends_finish() {
    // one stage with two recorded intermediate splits
    let e = entry(7, vec![500], Some(vec![vec![100, 300]]));
    let rows = e.splits_with_finish();
    assert_eq!(rows.len(), 1);
    assert_eq!(rows[0], vec![st(100), st(300), st(500)]);
}

#[test]
fn entry_splits_with_finish_without_recorded_splits() {
    let e = entry(7, vec![500, 600], None);
    let rows = e.splits_with_finish();
    assert_eq!(rows.len(), 2);
    assert_eq!(rows[0], vec![st(500)]);
    assert_eq!(rows[1], vec![st(600)]);
}

#[test]
fn splits_with_finish_has_one_more_than_recorded() {
    // k recorded splits give k + 1 entries, the last being the finish
    for k in 0..4usize {
        let cumulative: Vec<u64> = (1..=k as u64).map(|j| 100 * j).collect();
        let e = entry(3, vec![1000], Some(vec![cumulative]));
        let rows = e.splits_with_finish();
        assert_eq!(rows[0].len(), k + 1);
        assert_eq!(*rows[0].last().unwrap(), st(1000));
    }
}

#[test]
fn stage_splits_with_finish_appends_length() {
    let stage = Stage { name: "One".to_string(), length: 1000, splits: Some(vec![250, 600]) };
    assert_eq!(stage.splits_with_finish(), vec![250, 600, 1000]);
    let bare = Stage { name: "Two".to_string(), length: 800, splits: None };
    assert_eq!(bare.splits_with_finish(), vec![800]);
}

#[test]
fn stage_has_splits() {
    let with = Stage { name: "A".to_string(), length: 1000, splits: Some(vec![250]) };
    let empty = Stage { name: "B".to_string(), length: 1000, splits: Some(vec![]) };
    let none = Stage { name: "C".to_string(), length: 1000, splits: None };
    assert!(with.has_splits());
    assert!(!empty.has_splits());
    assert!(!none.has_splits());
}

#[test]
fn sectors_derive_from_cumulative() {
    let sectors = derive_sectors(&vec![st(100), st(250), st(400)]);
    assert_eq!(sectors, vec![st(100), st(150), st(250)]);
}

#[test]
fn sectors_pass_invalid_through_without_updating_accumulator() {
    let sectors = derive_sectors(&vec![st(100), st(0), st(400)]);
    assert_eq!(sectors, vec![st(100), st(0), st(300)]);
}

#[test]
fn sectors_track_previous_derived_sector() {
    // the accumulator follows the derived sector value, so the third
    // slot is diffed against the second sector, not the second
    // cumulative value
    let sectors = derive_sectors(&vec![st(100), st(150), st(300)]);
    assert_eq!(sectors, vec![st(100), st(50), st(250)]);
}

#[test]
fn entry_sectors_with_finish() {
    let e = entry(7, vec![500], Some(vec![vec![100, 300]]));
    let rows = e.sectors_with_finish();
    assert_eq!(rows.len(), 1);
    assert_eq!(rows[0], vec![st(100), st(200), st(300)]);
}

#[test]
fn entry_by_driver_number_finds_first_match() {
    let rally = Rally {
        title: "T".to_string(),
        slug: "t".to_string(),
        entries: vec![entry(5, vec![100], None), entry(7, vec![200], None), entry(
            7,
            vec![300],
            None,
        )],
        stages: vec![Stage { name: "S".to_string(), length: 100, splits: None }],
    };
    let found = rally.entry_by_driver_number(7).unwrap();
    assert_eq!(found.times[0], st(200));
    assert!(rally.entry_by_driver_number(9).is_none());
}

#[test]
fn driver_and_codriver_names() {
    let rally = Rally {
        title: "T".to_string(),
        slug: "t".to_string(),
        entries: vec![entry(5, vec![100], None)],
        stages: vec![Stage { name: "S".to_string(), length: 100, splits: None }],
    };
    let uids = uids_for(&rally);
    let e = &rally.entries[0];
    assert_eq!(e.driver(&uids).last_name(), "Drv5");
    assert_eq!(e.codriver(&uids).last_name(), "Cod5");
    assert_eq!(e.driver(&uids).first_name(), "D");
    assert_eq!(e.names(&uids), "Drv5/Cod5");
}

#[test]
fn well_formedness_checks() {
    let good = Rally {
        title: "T".to_string(),
        slug: "t".to_string(),
        entries: vec![entry(5, vec![500], Some(vec![vec![100, 300]]))],
        stages: vec![Stage { name: "S".to_string(), length: 1000, splits: Some(vec![250, 600]) }],
    };
    assert!(good.is_well_formed());

    // entry with the wrong number of per-stage slots
    let mut bad = good.clone();
    bad.entries[0].times.push(st(1));
    assert!(!bad.is_well_formed());

    // stage with non-increasing splits
    let mut bad = good.clone();
    bad.stages[0].splits = Some(vec![600, 250]);
    assert!(!bad.is_well_formed());

    // split beyond the stage length
    let mut bad = good.clone();
    bad.stages[0].splits = Some(vec![250, 1200]);
    assert!(!bad.is_well_formed());

    // zero-length stage
    let mut bad = good.clone();
    bad.stages[0].length = 0;
    assert!(!bad.is_well_formed());

    // cumulative splits that would underflow sector derivation
    let mut bad = good.clone();
    bad.entries[0].splits = Some(vec![vec![st(300), st(100)]]);
    assert!(!bad.is_well_formed());

    let uids = uids_for(&good);
    assert!(good.uids_complete(&uids));
    let empty: UidMap = HashMap::new();
    assert!(!good.uids_complete(&empty));
}
