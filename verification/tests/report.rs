use std::collections::HashMap;

use sneakattackproto::spreadsheet::{
    build_spreadsheet, class_win_time, classify, delta_style, select_benchmarks, CellValue,
    CellWrite, Sheet, StyleIntent, Workbook,
};
use sneakattackproto::structures::{
    BoxColor, Category, Class, DeltaKind, Entry, Rally, Stage, StageTime, Uid, UidMap,
};

fn st(tenths: u64) -> StageTime {
    StageTime { tenths }
}

fn entry(number: usize, class: Class, category: Category, times: Vec<u64>) -> Entry {
    let n = times.len();
    Entry {
        category,
        number,
        driver_uid: number * 10,
        codriver_uid: number * 10 + 1,
        class,
        times: times.into_iter().map(st).collect(),
        colors: vec![BoxColor::Empty; n],
        splits: None,
    }
}

fn uids_for(rally: &Rally) -> UidMap {
    let mut map = HashMap::new();
    for e in &rally.entries {
        map.insert(
            e.driver_uid,
            Uid { uid: e.driver_uid, first: "F".to_string(), last: format!("Drv{}", e.number) },
        );
        map.insert(
            e.codriver_uid,
            Uid { uid: e.codriver_uid, first: "F".to_string(), last: format!("Cod{}", e.number) },
        );
    }
    map
}

fn sample_rally() -> Rally {
    // two stages: the first has one split at 2.50 mi, the second none;
    // lengths 10.00 mi and 8.00 mi
    let mut focal = entry(107, Class::O4WD, Category::National, vec![650, 700]);
    focal.splits = Some(vec![vec![st(200)], vec![]]);
    let mut bench = entry(1, Class::O4WD, Category::National, vec![600, 0]);
    bench.splits = Some(vec![vec![st(180)], vec![]]);
    let other_class = entry(2, Class::L2WD, Category::National, vec![100, 100]);
    Rally {
        title: "Test Rally".to_string(),
        slug: "test_rally".to_string(),
        entries: vec![focal, bench, other_class],
        stages: vec![
            Stage { name: "Forest".to_string(), length: 1000, splits: Some(vec![250]) },
            Stage { name: "Gravel".to_string(), length: 800, splits: None },
        ],
    }
}

fn cell_at(sheet: &Sheet, row: u32, col: u16) -> Option<&CellWrite> {
    sheet.writes.iter().find(|c| c.row == row && c.col == col)
}

fn text_at(sheet: &Sheet, row: u32, col: u16) -> String {
    match &cell_at(sheet, row, col).expect("missing cell").value {
        CellValue::Text(s) => s.clone(),
        CellValue::Hundredths(h) => panic!("expected text at ({row},{col}), found number {h}"),
    }
}

#[test]
fn unknown_driver_fails_with_title_and_number() {
    let rally = sample_rally();
    let uids = uids_for(&rally);
    assert!(rally.is_well_formed());
    assert!(rally.uids_complete(&uids));
    let result = build_spreadsheet(&rally, &uids, 9, &[1]);
    let err = result.err().expect("build must fail for an unknown driver");
    assert_eq!(err.message(), "Driver 9 did not race in Test Rally");
}

#[test]
fn workbook_has_overview_and_one_split_sheet() {
    let rally = sample_rally();
    let uids = uids_for(&rally);
    assert!(rally.is_well_formed());
    assert!(rally.uids_complete(&uids));
    let wb: Workbook = build_spreadsheet(&rally, &uids, 107, &[1]).unwrap();
    // the splitless stage produces no sheet
    assert_eq!(wb.sheets.len(), 2);
    assert_eq!(wb.sheets[0].name, "test_rally");
    assert_eq!(wb.sheets[1].name, "SS1 Forest");
}

#[test]
fn overview_layout() {
    let rally = sample_rally();
    let uids = uids_for(&rally);
    let wb = build_spreadsheet(&rally, &uids, 107, &[1]).unwrap();
    let overview = &wb.sheets[0];

    assert_eq!(text_at(overview, 0, 0), "Test Rally");
    assert_eq!(text_at(overview, 1, 0), "Stage Name");
    assert_eq!(text_at(overview, 1, 1), "Length");
    assert_eq!(text_at(overview, 1, 2), "107");
    assert_eq!(text_at(overview, 1, 4), "1");
    assert_eq!(text_at(overview, 1, 5), "Diff s/mi");

    // merged team-name header over the benchmark's two columns
    assert_eq!(overview.merges.len(), 1);
    let m = &overview.merges[0];
    assert_eq!((m.first_row, m.first_col, m.last_row, m.last_col), (0, 4, 0, 5));
    assert_eq!(m.text, "Drv1/Cod1");
    assert_eq!(m.style, StyleIntent::DriverNames);

    // stage rows
    assert_eq!(text_at(overview, 2, 0), "Forest");
    assert_eq!(
        cell_at(overview, 2, 1).unwrap().value,
        CellValue::Hundredths(1000),
        "stage length as a number"
    );
    assert_eq!(text_at(overview, 2, 2), "01:05.00");
    assert_eq!(text_at(overview, 2, 4), "01:00.00");
    // both times valid: 5.0 s over 10.00 mi is 0.50 s/mi, focal slower
    assert_eq!(text_at(overview, 2, 5), "-0.50");
    assert_eq!(cell_at(overview, 2, 5).unwrap().style, StyleIntent::DeltaPlain);

    // second stage: benchmark time invalid, so no delta cell
    assert_eq!(text_at(overview, 3, 0), "Gravel");
    assert_eq!(text_at(overview, 3, 4), "00.00");
    assert_eq!(cell_at(overview, 3, 4).unwrap().style, StyleIntent::InvalidTime);
    assert!(cell_at(overview, 3, 5).is_none());

    // winner styling: the benchmark holds the overall class win on
    // stage one; the focal driver's time is plain
    assert_eq!(cell_at(overview, 2, 4).unwrap().style, StyleIntent::OverallClassWin);
    assert_eq!(cell_at(overview, 2, 2).unwrap().style, StyleIntent::PlainTime);
    // on stage two the focal driver holds the win
    assert_eq!(cell_at(overview, 3, 2).unwrap().style, StyleIntent::OverallClassWin);

    assert_eq!(overview.widths.len(), 2);
    assert_eq!((overview.widths[0].col, overview.widths[0].width), (0, 18));
    assert_eq!((overview.widths[1].col, overview.widths[1].width), (1, 8));
}

#[test]
fn super_rally_marker_overrides_styling() {
    let mut rally = sample_rally();
    rally.entries[1].colors[0] = BoxColor::Red;
    let uids = uids_for(&rally);
    let wb = build_spreadsheet(&rally, &uids, 107, &[1]).unwrap();
    let overview = &wb.sheets[0];
    assert_eq!(cell_at(overview, 2, 4).unwrap().style, StyleIntent::SuperRally);
}

#[test]
fn split_sheet_layout() {
    let rally = sample_rally();
    let uids = uids_for(&rally);
    let wb = build_spreadsheet(&rally, &uids, 107, &[1]).unwrap();
    let sheet = &wb.sheets[1];

    assert_eq!(text_at(sheet, 0, 0), "Forest");
    assert_eq!(text_at(sheet, 0, 1), "Length");
    assert_eq!(cell_at(sheet, 0, 2).unwrap().value, CellValue::Hundredths(1000));
    assert_eq!(text_at(sheet, 1, 0), "Team");

    // one intermediate split gives two split-groups: the split and the
    // finish, at columns 3 and 6
    assert_eq!(cell_at(sheet, 1, 3).unwrap().value, CellValue::Hundredths(250));
    assert_eq!(text_at(sheet, 1, 4), "Diff s/mi");
    assert_eq!(text_at(sheet, 1, 5), "Cumulative s/mi");
    assert_eq!(cell_at(sheet, 1, 6).unwrap().value, CellValue::Hundredths(1000));
    assert_eq!(text_at(sheet, 1, 7), "Diff s/mi");
    assert_eq!(text_at(sheet, 1, 8), "Cumulative s/mi");
    assert!(cell_at(sheet, 1, 9).is_none());

    // focal driver row: cumulative times, no deltas
    assert_eq!(text_at(sheet, 2, 0), "Drv107/Cod107");
    assert_eq!(text_at(sheet, 2, 3), "20.00");
    assert_eq!(text_at(sheet, 2, 6), "01:05.00");
    assert!(cell_at(sheet, 2, 4).is_none());

    // benchmark row: cumulative times and both deltas
    assert_eq!(text_at(sheet, 3, 0), "Drv1/Cod1");
    assert_eq!(text_at(sheet, 3, 3), "18.00");
    assert_eq!(text_at(sheet, 3, 6), "01:00.00");
    // first split: sectors are the splits themselves; 2.0 s over
    // 2.50 mi is 0.80 s/mi, focal slower
    assert_eq!(text_at(sheet, 3, 4), "-0.80");
    assert_eq!(text_at(sheet, 3, 5), "-0.80");
    // finish group: sector 45.0 vs 42.0 over 7.50 mi; cumulative 65.0
    // vs 60.0 over 10.00 mi
    assert_eq!(text_at(sheet, 3, 7), "-0.40");
    assert_eq!(text_at(sheet, 3, 8), "-0.50");

    assert_eq!(sheet.merges.len(), 0);
    assert_eq!(sheet.widths.len(), 1);
}

#[test]
fn entry_without_splits_gets_invalid_placeholders() {
    let mut rally = sample_rally();
    rally.entries[1].splits = None;
    let uids = uids_for(&rally);
    let wb = build_spreadsheet(&rally, &uids, 107, &[1]).unwrap();
    let sheet = &wb.sheets[1];
    // the benchmark's split slot is an invalid placeholder, the finish
    // lands in the final group, and no deltas appear at the split
    assert_eq!(text_at(sheet, 3, 3), "00.00");
    assert!(cell_at(sheet, 3, 4).is_none());
    assert_eq!(text_at(sheet, 3, 6), "01:00.00");
    assert_eq!(text_at(sheet, 3, 8), "-0.50");
}

#[test]
fn benchmarks_follow_entry_order_and_missing_numbers_are_omitted() {
    let rally = sample_rally();
    let picked = select_benchmarks(&rally, &[2, 999, 1]);
    // entry order, not request order; 999 races nowhere and is dropped
    assert_eq!(picked, vec![1, 2]);
    let uids = uids_for(&rally);
    let wb = build_spreadsheet(&rally, &uids, 107, &[2, 999, 1]).unwrap();
    let overview = &wb.sheets[0];
    assert_eq!(text_at(overview, 1, 4), "1");
    assert_eq!(text_at(overview, 1, 6), "2");
}

#[test]
fn class_win_excludes_invalid_and_other_classes() {
    let entries = vec![
        entry(1, Class::O4WD, Category::National, vec![600]),
        entry(2, Class::O4WD, Category::Regional, vec![550]),
        entry(3, Class::O4WD, Category::National, vec![0]),
        entry(4, Class::L2WD, Category::National, vec![100]),
    ];
    let overall = class_win_time(&entries, 0, Class::O4WD, None);
    assert_eq!(overall, Some(st(550)));
    let in_category = class_win_time(&entries, 0, Class::O4WD, Some(Category::National));
    assert_eq!(in_category, Some(st(600)));
    // every valid O4WD time is at least the win
    for e in entries.iter().filter(|e| e.class == Class::O4WD) {
        if e.times[0].is_valid() {
            assert!(overall.unwrap().tenths <= e.times[0].tenths);
        }
    }
}

#[test]
fn class_win_is_none_when_all_invalid() {
    let entries = vec![
        entry(1, Class::O4WD, Category::National, vec![0]),
        entry(4, Class::L2WD, Category::National, vec![100]),
    ];
    assert_eq!(class_win_time(&entries, 0, Class::O4WD, None), None);
}

#[test]
fn classify_priorities() {
    let win = st(600);
    let cat_win = st(650);
    let overall = Some(win);
    let classw = Some(cat_win);
    assert_eq!(classify(st(600), overall, classw, true), StyleIntent::SuperRally);
    assert_eq!(classify(st(0), overall, classw, false), StyleIntent::InvalidTime);
    assert_eq!(classify(st(600), overall, classw, false), StyleIntent::OverallClassWin);
    assert_eq!(classify(st(650), overall, classw, false), StyleIntent::ClassWin);
    assert_eq!(classify(st(700), overall, classw, false), StyleIntent::PlainTime);
    assert_eq!(classify(st(700), None, None, false), StyleIntent::PlainTime);
}

#[test]
fn delta_styles() {
    assert_eq!(delta_style(DeltaKind::Invalid), StyleIntent::DeltaInvalid);
    assert_eq!(delta_style(DeltaKind::Equal), StyleIntent::DeltaInvalid);
    assert_eq!(delta_style(DeltaKind::Faster), StyleIntent::DeltaFaster);
    assert_eq!(delta_style(DeltaKind::Slower), StyleIntent::DeltaPlain);
}
