//! The report engine: computes per-stage winners and lays the
//! comparison report out as an ordered sequence of styled cell
//! writes, grouped into named sheets. An external collaborator turns
//! the workbook value into an actual spreadsheet file; only the
//! values and the distinctness of the style intents matter here.

use vstd::prelude::*;

use crate::structures::{
    entry_row, entry_wf, find_entry, names_chars, prev_split, rally_fits, rally_wf, sector_row,
    sector_row_ok, sector_row_ok_from, spec_diff_per_mile, stage_splits_spec, stage_wf, time_chars,
    uids_ok,
};
use crate::structures::{BoxColor, Category, Class, Delta, DeltaKind, Entry, Rally, Stage,
    StageTime, Uid, UidMap};
use crate::structures::delta_chars;
use crate::text::dec_chars;
use crate::text::push_decimal;

verus! {

/// The visual intent of one cell, named for what the cell means; the
/// encoding collaborator maps each intent onto concrete styling.
#[derive(Clone, Copy, Debug, PartialEq, Eq, Structural)]
pub enum StyleIntent {
    /// Plain bold text (titles).
    Bold,
    /// A bordered bold header cell.
    Heading,
    /// A stage-name cell.
    StageName,
    /// A numeric distance cell.
    StageLength,
    /// An ordinary stage-time cell.
    PlainTime,
    /// A time that was never recorded.
    InvalidTime,
    /// The overall class-winning time of the stage.
    OverallClassWin,
    /// The category class-winning time of the stage.
    ClassWin,
    /// A time subject to a super-rally adjustment.
    SuperRally,
    /// A delta where the focal driver lost time to the benchmark.
    DeltaPlain,
    /// A delta that carries no comparison (equal or invalid).
    DeltaInvalid,
    /// A delta where the focal driver was faster than the benchmark.
    DeltaFaster,
    /// The merged team-names header.
    DriverNames,
}

/// What one cell holds: text, or a distance in hundredths of a mile
/// that the encoder renders as a number with two decimals.
#[derive(Clone, Debug, PartialEq)]
pub enum CellValue {
    Text(String),
    Hundredths(u64),
}

/// The mathematical model of a cell value.
pub enum GValue {
    Text(Seq<char>),
    Hundredths(nat),
}

impl View for CellValue {
    type V = GValue;

    open spec fn view(&self) -> GValue {
        match *self {
            CellValue::Text(s) => GValue::Text(s@),
            CellValue::Hundredths(h) => GValue::Hundredths(h as nat),
        }
    }
}

/// One styled cell write.
#[derive(Clone, Debug, PartialEq)]
pub struct CellWrite {
    pub row: u32,
    pub col: u16,
    pub value: CellValue,
    pub style: StyleIntent,
}

/// The mathematical model of one cell write.
#[verifier::ext_equal]
pub struct GCell {
    pub row: int,
    pub col: int,
    pub value: GValue,
    pub style: StyleIntent,
}

impl View for CellWrite {
    type V = GCell;

    open spec fn view(&self) -> GCell {
        GCell { row: self.row as int, col: self.col as int, value: self.value@, style: self.style }
    }
}

impl DeepView for CellWrite {
    type V = GCell;

    open spec fn deep_view(&self) -> GCell {
        self.view()
    }
}

/// One merged header range with its text.
#[derive(Clone, Debug, PartialEq)]
pub struct MergedCell {
    pub first_row: u32,
    pub first_col: u16,
    pub last_row: u32,
    pub last_col: u16,
    pub text: String,
    pub style: StyleIntent,
}

/// The mathematical model of one merged range.
#[verifier::ext_equal]
pub struct GMerge {
    pub first_row: int,
    pub first_col: int,
    pub last_row: int,
    pub last_col: int,
    pub text: Seq<char>,
    pub style: StyleIntent,
}

impl View for MergedCell {
    type V = GMerge;

    open spec fn view(&self) -> GMerge {
        GMerge {
            first_row: self.first_row as int,
            first_col: self.first_col as int,
            last_row: self.last_row as int,
            last_col: self.last_col as int,
            text: self.text@,
            style: self.style,
        }
    }
}

impl DeepView for MergedCell {
    type V = GMerge;

    open spec fn deep_view(&self) -> GMerge {
        self.view()
    }
}

/// A column-width hint for the encoder.
#[derive(Clone, Copy, Debug, PartialEq, Eq, Structural)]
pub struct ColumnWidth {
    pub col: u16,
    pub width: u16,
}

/// One named sheet: an ordered list of cell writes, plus merged
/// ranges and column-width hints.
#[derive(Clone, Debug)]
pub struct Sheet {
    pub name: String,
    pub writes: Vec<CellWrite>,
    pub merges: Vec<MergedCell>,
    pub widths: Vec<ColumnWidth>,
}

impl Sheet {
    /// An empty sheet under the given name.
    pub fn new(name: String) -> (r: Sheet)
        ensures
            r.name@ == name@,
            r.writes.deep_view() == Seq::<GCell>::empty(),
            r.merges.deep_view() == Seq::<GMerge>::empty(),
            r.widths@ == Seq::<ColumnWidth>::empty(),
    {
        let r = Sheet { name, writes: Vec::new(), merges: Vec::new(), widths: Vec::new() };
        proof {
            assert(r.writes.deep_view() =~= Seq::<GCell>::empty());
            assert(r.merges.deep_view() =~= Seq::<GMerge>::empty());
        }
        r
    }
}

/// The whole report: the overview sheet followed by the split sheets,
/// in stage order.
#[derive(Clone, Debug)]
pub struct Workbook {
    pub sheets: Vec<Sheet>,
}

/// Appends one cell write to a sheet.
fn push_cell(sheet: &mut Sheet, row: u32, col: u16, value: CellValue, style: StyleIntent)
    ensures
        final(sheet).writes.deep_view() == old(sheet).writes.deep_view().push(
            GCell { row: row as int, col: col as int, value: value@, style },
        ),
        final(sheet).name == old(sheet).name,
        final(sheet).merges == old(sheet).merges,
        final(sheet).widths == old(sheet).widths,
{
    let ghost g = GCell { row: row as int, col: col as int, value: value@, style };
    sheet.writes.push(CellWrite { row, col, value, style });
    proof {
        assert(sheet.writes.deep_view() =~= old(sheet).writes.deep_view().push(g));
    }
}

/// Appends one merged range to a sheet.
fn push_merge(
    sheet: &mut Sheet,
    first_row: u32,
    first_col: u16,
    last_row: u32,
    last_col: u16,
    text: String,
    style: StyleIntent,
)
    ensures
        final(sheet).merges.deep_view() == old(sheet).merges.deep_view().push(
            GMerge {
                first_row: first_row as int,
                first_col: first_col as int,
                last_row: last_row as int,
                last_col: last_col as int,
                text: text@,
                style,
            },
        ),
        final(sheet).name == old(sheet).name,
        final(sheet).writes == old(sheet).writes,
        final(sheet).widths == old(sheet).widths,
{
    let ghost g = GMerge {
        first_row: first_row as int,
        first_col: first_col as int,
        last_row: last_row as int,
        last_col: last_col as int,
        text: text@,
        style,
    };
    sheet.merges.push(MergedCell { first_row, first_col, last_row, last_col, text, style });
    proof {
        assert(sheet.merges.deep_view() =~= old(sheet).merges.deep_view().push(g));
    }
}

/// Whether an entry is in the comparison group: same class as the
/// focal driver, and, when a category is given, the same category
/// too.
pub open spec fn entry_matches(e: Entry, class: Class, cat: Option<Category>) -> bool {
    e.class == class && (cat matches Some(c) ==> e.category == c)
}

/// The winning (smallest valid) time of the stage at index `s` among
/// the entries in the comparison group; `None` when the group
/// recorded no valid time on that stage.
pub open spec fn win_time(entries: Seq<Entry>, s: int, class: Class, cat: Option<Category>) -> Option<
    StageTime,
>
    decreases entries.len(),
{
    if entries.len() == 0 {
        None
    } else {
        let rest = win_time(entries.drop_last(), s, class, cat);
        let e = entries.last();
        if entry_matches(e, class, cat) && e.times@[s].tenths != 0 {
            match rest {
                None => Some(e.times@[s]),
                Some(t) => if e.times@[s].tenths < t.tenths {
                    Some(e.times@[s])
                } else {
                    Some(t)
                },
            }
        } else {
            rest
        }
    }
}

/// What it means for `r` to be the stage win of the comparison group:
/// a valid time someone in the group recorded, no larger than every
/// valid time recorded in the group; or nothing, exactly when the
/// group recorded no valid time.
pub open spec fn win_time_ok(
    entries: Seq<Entry>,
    s: int,
    class: Class,
    cat: Option<Category>,
    r: Option<StageTime>,
) -> bool {
    match r {
        Some(t) => {
            &&& t.tenths != 0
            &&& exists|i: int|
                0 <= i < entries.len() && entry_matches(#[trigger] entries[i], class, cat)
                    && entries[i].times@[s] == t
            &&& forall|i: int|
                0 <= i < entries.len() && entry_matches(#[trigger] entries[i], class, cat)
                    && entries[i].times@[s].tenths != 0 ==> t.tenths <= entries[i].times@[s].tenths
        },
        None => forall|i: int|
            0 <= i < entries.len() && entry_matches(#[trigger] entries[i], class, cat)
                ==> entries[i].times@[s].tenths == 0,
    }
}

/// The stage win is sound: it is a recorded valid time of the group
/// and no valid time of the group beats it, and it is absent exactly
/// when the whole group went unrecorded on that stage.
pub proof fn lemma_win_time_is_min(entries: Seq<Entry>, s: int, class: Class, cat: Option<Category>)
    ensures
        win_time_ok(entries, s, class, cat, win_time(entries, s, class, cat)),
    decreases entries.len(),
{
    if entries.len() > 0 {
        let pre = entries.drop_last();
        lemma_win_time_is_min(pre, s, class, cat);
        let rest = win_time(pre, s, class, cat);
        let e = entries.last();
        let r = win_time(entries, s, class, cat);
        assert(forall|i: int| 0 <= i < pre.len() ==> pre[i] == entries[i]);
        match r {
            Some(t) => {
                if entry_matches(e, class, cat) && e.times@[s].tenths != 0 && (rest is None
                    || e.times@[s].tenths < rest.unwrap().tenths) {
                    assert(entries[entries.len() - 1] == e);
                } else {
                    let i = choose|i: int|
                        0 <= i < pre.len() && entry_matches(#[trigger] pre[i], class, cat)
                            && pre[i].times@[s] == t;
                    assert(entry_matches(entries[i], class, cat) && entries[i].times@[s] == t);
                }
            },
            None => {},
        }
    }
}

/// Computes the winning time of stage `s` among the entries whose
/// class (and, when given, category) matches.
pub fn class_win_time(
    entries: &Vec<Entry>,
    s: usize,
    class: Class,
    cat: Option<Category>,
) -> (r: Option<StageTime>)
    requires
        forall|i: int| 0 <= i < entries@.len() ==> (#[trigger] entries@[i]).times@.len() > s,
    ensures
        r == win_time(entries@, s as int, class, cat),
        win_time_ok(entries@, s as int, class, cat, r),
{
    let n = entries.len();
    let mut best: Option<StageTime> = None;
    let mut i: usize = 0;
    proof {
        assert(entries@.take(0) =~= Seq::<Entry>::empty());
    }
    while i < n
        invariant
            i <= n,
            n == entries@.len(),
            forall|k: int| 0 <= k < entries@.len() ==> (#[trigger] entries@[k]).times@.len() > s,
            best == win_time(entries@.take(i as int), s as int, class, cat),
        decreases n - i,
    {
        let e = &entries[i];
        let in_group = e.class == class && (match cat {
            Some(c) => e.category == c,
            None => true,
        });
        proof {
            assert(entries@.take(i as int + 1).drop_last() =~= entries@.take(i as int));
            assert(entries@.take(i as int + 1).last() == entries@[i as int]);
        }
        if in_group && e.times[s].tenths != 0 {
            best = match best {
                None => Some(e.times[s]),
                Some(t) => if e.times[s].tenths < t.tenths {
                    Some(e.times[s])
                } else {
                    Some(t)
                },
            };
        }
        i = i + 1;
    }
    proof {
        assert(entries@.take(n as int) =~= entries@);
        lemma_win_time_is_min(entries@, s as int, class, cat);
    }
    best
}

/// The style of a time cell, by priority: the super-rally marker
/// overrides everything; otherwise an invalid time, the overall class
/// win, the category class win, and finally a plain time.
pub open spec fn spec_classify(
    t: StageTime,
    overall: Option<StageTime>,
    class_w: Option<StageTime>,
    super_rally: bool,
) -> StyleIntent {
    if super_rally {
        StyleIntent::SuperRally
    } else if t.tenths == 0 {
        StyleIntent::InvalidTime
    } else if overall == Some(t) {
        StyleIntent::OverallClassWin
    } else if class_w == Some(t) {
        StyleIntent::ClassWin
    } else {
        StyleIntent::PlainTime
    }
}

/// Picks the style of a time cell from the time, the two stage wins,
/// and the entry's super-rally marker for the stage.
pub fn classify(
    t: StageTime,
    overall: Option<StageTime>,
    class_w: Option<StageTime>,
    super_rally: bool,
) -> (r: StyleIntent)
    ensures
        r == spec_classify(t, overall, class_w, super_rally),
{
    if super_rally {
        StyleIntent::SuperRally
    } else if t.tenths == 0 {
        StyleIntent::InvalidTime
    } else if match overall {
        Some(w) => w.tenths == t.tenths,
        None => false,
    } {
        StyleIntent::OverallClassWin
    } else if match class_w {
        Some(w) => w.tenths == t.tenths,
        None => false,
    } {
        StyleIntent::ClassWin
    } else {
        StyleIntent::PlainTime
    }
}

/// The style of a delta cell: neutral for an equal or invalid
/// comparison, highlighted when the benchmark was faster, plain when
/// slower.
pub open spec fn spec_delta_style(k: DeltaKind) -> StyleIntent {
    match k {
        DeltaKind::Invalid | DeltaKind::Equal => StyleIntent::DeltaInvalid,
        DeltaKind::Faster => StyleIntent::DeltaFaster,
        DeltaKind::Slower => StyleIntent::DeltaPlain,
    }
}

/// Picks the style of a delta cell from its classification.
pub fn delta_style(k: DeltaKind) -> (r: StyleIntent)
    ensures
        r == spec_delta_style(k),
{
    match k {
        DeltaKind::Invalid | DeltaKind::Equal => StyleIntent::DeltaInvalid,
        DeltaKind::Faster => StyleIntent::DeltaFaster,
        DeltaKind::Slower => StyleIntent::DeltaPlain,
    }
}

/// A text cell.
pub open spec fn gtext(row: int, col: int, text: Seq<char>, style: StyleIntent) -> GCell {
    GCell { row, col, value: GValue::Text(text), style }
}

/// A numeric distance cell, in hundredths of a mile.
pub open spec fn gnum(row: int, col: int, h: u64, style: StyleIntent) -> GCell {
    GCell { row, col, value: GValue::Hundredths(h as nat), style }
}

/// The benchmark entry that the `i`th selected index points at.
pub open spec fn bench_entry(rally: Rally, bench: Seq<usize>, i: int) -> Entry {
    rally.entries@[bench[i] as int]
}

/// The overview header cells of the benchmarks, from the `i`th on:
/// each benchmark gets its competitor number and a delta-column
/// label, two columns per benchmark.
pub open spec fn overview_bench_header(rally: Rally, bench: Seq<usize>, i: int) -> Seq<GCell>
    decreases bench.len() - i,
{
    if i < 0 || i >= bench.len() {
        Seq::empty()
    } else {
        seq![
            gtext(
                1,
                4 + 2 * i,
                dec_chars(bench_entry(rally, bench, i).number as nat),
                StyleIntent::Heading,
            ),
            gtext(1, 5 + 2 * i, "Diff s/mi"@, StyleIntent::Heading),
        ] + overview_bench_header(rally, bench, i + 1)
    }
}

/// The merged team-name headers of the benchmarks, from the `i`th on:
/// each spans that benchmark's two columns.
pub open spec fn overview_bench_merges(
    rally: Rally,
    bench: Seq<usize>,
    uids: Map<usize, Uid>,
    i: int,
) -> Seq<GMerge>
    decreases bench.len() - i,
{
    if i < 0 || i >= bench.len() {
        Seq::empty()
    } else {
        seq![
            GMerge {
                first_row: 0,
                first_col: 4 + 2 * i,
                last_row: 0,
                last_col: 5 + 2 * i,
                text: names_chars(bench_entry(rally, bench, i), uids),
                style: StyleIntent::DriverNames,
            },
        ] + overview_bench_merges(rally, bench, uids, i + 1)
    }
}

/// One overview stage row's benchmark cells, from the `i`th benchmark
/// on: the benchmark's formatted time, styled by the stage wins and
/// its super-rally marker, and — only when both the focal driver's
/// and the benchmark's time are valid — the formatted delta of the
/// focal driver against the benchmark over the stage length.
pub open spec fn overview_bench_cells(
    rally: Rally,
    driver: Entry,
    bench: Seq<usize>,
    s: int,
    overall: Option<StageTime>,
    classw: Option<StageTime>,
    i: int,
) -> Seq<GCell>
    decreases bench.len() - i,
{
    if i < 0 || i >= bench.len() {
        Seq::empty()
    } else {
        let e = bench_entry(rally, bench, i);
        let bt = e.times@[s];
        let dt = driver.times@[s];
        let row = 2 + s;
        let tcell = gtext(
            row,
            4 + 2 * i,
            time_chars(bt.tenths as nat),
            spec_classify(bt, overall, classw, e.colors@[s] == BoxColor::Red),
        );
        let dcells: Seq<GCell> = if bt.tenths != 0 && dt.tenths != 0 {
            let d = spec_diff_per_mile(dt, bt, rally.stages@[s].length);
            seq![gtext(row, 5 + 2 * i, delta_chars(d), spec_delta_style(d.kind))]
        } else {
            Seq::empty()
        };
        seq![tcell] + dcells + overview_bench_cells(rally, driver, bench, s, overall, classw, i + 1)
    }
}

/// The overview's stage rows from stage `s` on: per stage its name,
/// its length, the focal driver's styled time, and the benchmark
/// cells; the stage wins are computed fresh per stage over all
/// entries of the focal driver's class (and category for the class
/// win).
pub open spec fn overview_stage_rows(
    rally: Rally,
    driver: Entry,
    bench: Seq<usize>,
    s: int,
) -> Seq<GCell>
    decreases rally.stages@.len() - s,
{
    if s < 0 || s >= rally.stages@.len() {
        Seq::empty()
    } else {
        let stage = rally.stages@[s];
        let overall = win_time(rally.entries@, s, driver.class, None);
        let classw = win_time(rally.entries@, s, driver.class, Some(driver.category));
        let row = 2 + s;
        let dt = driver.times@[s];
        seq![
            gtext(row, 0, stage.name@, StyleIntent::StageName),
            gnum(row, 1, stage.length, StyleIntent::StageLength),
            gtext(
                row,
                2,
                time_chars(dt.tenths as nat),
                spec_classify(dt, overall, classw, driver.colors@[s] == BoxColor::Red),
            ),
        ] + overview_bench_cells(rally, driver, bench, s, overall, classw, 0)
            + overview_stage_rows(rally, driver, bench, s + 1)
    }
}

/// Every cell write of the overview sheet, in emission order: the
/// rally title, the fixed column headers, the focal driver's number,
/// the benchmark headers, then one row per stage.
pub open spec fn overview_cells(rally: Rally, driver: Entry, bench: Seq<usize>) -> Seq<GCell> {
    seq![
        gtext(0, 0, rally.title@, StyleIntent::Bold),
        gtext(1, 0, "Stage Name"@, StyleIntent::Heading),
        gtext(1, 1, "Length"@, StyleIntent::Heading),
        gtext(1, 2, dec_chars(driver.number as nat), StyleIntent::Heading),
    ] + overview_bench_header(rally, bench, 0) + overview_stage_rows(rally, driver, bench, 0)
}

/// Renders a number as its decimal text.
fn decimal_string(n: u64) -> (r: String)
    ensures
        r@ == dec_chars(n as nat),
{
    let mut out = String::new();
    push_decimal(&mut out, n);
    out
}

/// Builds the overview sheet: appends its column widths, merged
/// team-name headers, and every cell write of the overview layout to
/// `sheet`, in order.
#[verifier::rlimit(100)]
pub fn build_overview(
    rally: &Rally,
    uids: &UidMap,
    driver: &Entry,
    benchmarks: &Vec<usize>,
    sheet: &mut Sheet,
)
    requires
        rally_wf(*rally),
        rally_fits(*rally),
        uids_ok(*rally, uids@),
        entry_wf(*driver, rally.stages@.len() as nat),
        forall|i: int| 0 <= i < benchmarks@.len() ==> (#[trigger] benchmarks@[i]) < rally.entries@.len(),
        benchmarks@.len() <= 32765,
    ensures
        final(sheet).name == old(sheet).name,
        final(sheet).writes.deep_view() == old(sheet).writes.deep_view() + overview_cells(
            *rally,
            *driver,
            benchmarks@,
        ),
        final(sheet).merges.deep_view() == old(sheet).merges.deep_view() + overview_bench_merges(
            *rally,
            benchmarks@,
            uids@,
            0,
        ),
        final(sheet).widths@ == old(sheet).widths@ + seq![
            ColumnWidth { col: 0, width: 18 },
            ColumnWidth { col: 1, width: 8 },
        ],
{
    let ghost base_w = sheet.writes.deep_view();
    let ghost base_m = sheet.merges.deep_view();
    let ghost base_c = sheet.widths@;

    sheet.widths.push(ColumnWidth { col: 0, width: 18 });
    push_cell(sheet, 0, 0, CellValue::Text(rally.title.clone()), StyleIntent::Bold);
    push_cell(sheet, 1, 0, CellValue::Text("Stage Name".to_owned()), StyleIntent::Heading);
    push_cell(sheet, 1, 1, CellValue::Text("Length".to_owned()), StyleIntent::Heading);
    sheet.widths.push(ColumnWidth { col: 1, width: 8 });
    push_cell(
        sheet,
        1,
        2,
        CellValue::Text(decimal_string(driver.number as u64)),
        StyleIntent::Heading,
    );
    proof {
        assert(sheet.widths@ =~= base_c + seq![
            ColumnWidth { col: 0, width: 18 },
            ColumnWidth { col: 1, width: 8 },
        ]);
    }

    let ghost head4 = seq![
        gtext(0, 0, rally.title@, StyleIntent::Bold),
        gtext(1, 0, "Stage Name"@, StyleIntent::Heading),
        gtext(1, 1, "Length"@, StyleIntent::Heading),
        gtext(1, 2, dec_chars(driver.number as nat), StyleIntent::Heading),
    ];
    proof {
        assert(sheet.writes.deep_view() =~= base_w + head4);
    }

    let nb = benchmarks.len();
    let mut i: usize = 0;
    while i < nb
        invariant
            i <= nb,
            nb == benchmarks@.len(),
            rally_wf(*rally),
            uids_ok(*rally, uids@),
            forall|k: int|
                0 <= k < benchmarks@.len() ==> (#[trigger] benchmarks@[k]) < rally.entries@.len(),
            benchmarks@.len() <= 32765,
            sheet.name == old(sheet).name,
            sheet.widths@ == base_c + seq![
                ColumnWidth { col: 0, width: 18 },
                ColumnWidth { col: 1, width: 8 },
            ],
            sheet.merges.deep_view() + overview_bench_merges(
                *rally,
                benchmarks@,
                uids@,
                i as int,
            ) == base_m + overview_bench_merges(*rally, benchmarks@, uids@, 0),
            sheet.writes.deep_view() + overview_bench_header(*rally, benchmarks@, i as int) == base_w
                + head4 + overview_bench_header(*rally, benchmarks@, 0),
        decreases nb - i,
    {
        let idx = benchmarks[i];
        let e = &rally.entries[idx];
        proof {
            assert(rally.entries@[idx as int] == bench_entry(*rally, benchmarks@, i as int));
        }
        let ghost pre_m = sheet.merges.deep_view();
        let names = e.names(uids);
        push_merge(
            sheet,
            0,
            4 + 2 * (i as u16),
            0,
            5 + 2 * (i as u16),
            names,
            StyleIntent::DriverNames,
        );
        proof {
            let g = GMerge {
                first_row: 0,
                first_col: 4 + 2 * (i as int),
                last_row: 0,
                last_col: 5 + 2 * (i as int),
                text: names_chars(bench_entry(*rally, benchmarks@, i as int), uids@),
                style: StyleIntent::DriverNames,
            };
            assert(sheet.merges.deep_view() =~= pre_m + seq![g]);
            assert(overview_bench_merges(*rally, benchmarks@, uids@, i as int) =~= seq![g]
                + overview_bench_merges(*rally, benchmarks@, uids@, i as int + 1));
            assert(sheet.merges.deep_view() + overview_bench_merges(
                *rally,
                benchmarks@,
                uids@,
                i as int + 1,
            ) =~= base_m + overview_bench_merges(*rally, benchmarks@, uids@, 0));
        }
        let ghost pre_w = sheet.writes.deep_view();
        push_cell(
            sheet,
            1,
            4 + 2 * (i as u16),
            CellValue::Text(decimal_string(e.number as u64)),
            StyleIntent::Heading,
        );
        push_cell(
            sheet,
            1,
            5 + 2 * (i as u16),
            CellValue::Text("Diff s/mi".to_owned()),
            StyleIntent::Heading,
        );
        proof {
            let c1 = gtext(
                1,
                4 + 2 * (i as int),
                dec_chars(bench_entry(*rally, benchmarks@, i as int).number as nat),
                StyleIntent::Heading,
            );
            let c2 = gtext(1, 5 + 2 * (i as int), "Diff s/mi"@, StyleIntent::Heading);
            assert(sheet.writes.deep_view() =~= pre_w + seq![c1, c2]);
            assert(overview_bench_header(*rally, benchmarks@, i as int) =~= seq![c1, c2]
                + overview_bench_header(*rally, benchmarks@, i as int + 1));
            assert(sheet.writes.deep_view() + overview_bench_header(
                *rally,
                benchmarks@,
                i as int + 1,
            ) =~= base_w + head4 + overview_bench_header(*rally, benchmarks@, 0));
        }
        i = i + 1;
    }

    let ghost base_rows = sheet.writes.deep_view();
    proof {
        assert(base_rows =~= base_w + head4 + overview_bench_header(*rally, benchmarks@, 0));
    }
    let ns = rally.stages.len();
    let mut s: usize = 0;
    while s < ns
        invariant
            s <= ns,
            ns == rally.stages@.len(),
            nb == benchmarks@.len(),
            rally_wf(*rally),
            rally_fits(*rally),
            uids_ok(*rally, uids@),
            entry_wf(*driver, rally.stages@.len() as nat),
            forall|k: int|
                0 <= k < benchmarks@.len() ==> (#[trigger] benchmarks@[k]) < rally.entries@.len(),
            benchmarks@.len() <= 32765,
            sheet.name == old(sheet).name,
            sheet.merges.deep_view() == base_m + overview_bench_merges(
                *rally,
                benchmarks@,
                uids@,
                0,
            ),
            sheet.widths@ == base_c + seq![
                ColumnWidth { col: 0, width: 18 },
                ColumnWidth { col: 1, width: 8 },
            ],
            sheet.writes.deep_view() + overview_stage_rows(*rally, *driver, benchmarks@, s as int)
                == base_rows + overview_stage_rows(*rally, *driver, benchmarks@, 0),
        decreases ns - s,
    {
        let stage = &rally.stages[s];
        proof {
            assert(rally.stages@[s as int] == *stage);
            assert(stage_wf(*stage));
            assert forall|k: int| 0 <= k < rally.entries@.len() implies (#[trigger] rally.entries@[
                k
            ]).times@.len() > s by {
                assert(entry_wf(rally.entries@[k], rally.stages@.len() as nat));
            }
        }
        let overall = class_win_time(&rally.entries, s, driver.class, None);
        let classw = class_win_time(&rally.entries, s, driver.class, Some(driver.category));
        let ghost pre_w = sheet.writes.deep_view();
        push_cell(
            sheet,
            2 + (s as u32),
            0,
            CellValue::Text(stage.name.clone()),
            StyleIntent::StageName,
        );
        push_cell(
            sheet,
            2 + (s as u32),
            1,
            CellValue::Hundredths(stage.length),
            StyleIntent::StageLength,
        );
        let driver_time = driver.times[s];
        let d_super = match driver.colors[s] {
            BoxColor::Red => true,
            BoxColor::Empty => false,
        };
        let d_style = classify(driver_time, overall, classw, d_super);
        push_cell(
            sheet,
            2 + (s as u32),
            2,
            CellValue::Text(driver_time.to_string()),
            d_style,
        );
        let ghost row3 = seq![
            gtext(2 + s as int, 0, stage.name@, StyleIntent::StageName),
            gnum(2 + s as int, 1, stage.length, StyleIntent::StageLength),
            gtext(
                2 + s as int,
                2,
                time_chars(driver.times@[s as int].tenths as nat),
                spec_classify(
                    driver.times@[s as int],
                    win_time(rally.entries@, s as int, driver.class, None),
                    win_time(rally.entries@, s as int, driver.class, Some(driver.category)),
                    driver.colors@[s as int] == BoxColor::Red,
                ),
            ),
        ];
        proof {
            assert(sheet.writes.deep_view() =~= pre_w + row3);
        }
        let mut j: usize = 0;
        while j < nb
            invariant
                j <= nb,
                s < ns,
                ns == rally.stages@.len(),
                nb == benchmarks@.len(),
                rally_wf(*rally),
                rally_fits(*rally),
                uids_ok(*rally, uids@),
                entry_wf(*driver, rally.stages@.len() as nat),
                forall|k: int|
                    0 <= k < benchmarks@.len() ==> (#[trigger] benchmarks@[k])
                        < rally.entries@.len(),
                benchmarks@.len() <= 32765,
                sheet.name == old(sheet).name,
                sheet.merges.deep_view() == base_m + overview_bench_merges(
                    *rally,
                    benchmarks@,
                    uids@,
                    0,
                ),
                sheet.widths@ == base_c + seq![
                    ColumnWidth { col: 0, width: 18 },
                    ColumnWidth { col: 1, width: 8 },
                ],
                *stage == rally.stages@[s as int],
                overall == win_time(rally.entries@, s as int, driver.class, None),
                classw == win_time(rally.entries@, s as int, driver.class, Some(driver.category)),
                driver_time == driver.times@[s as int],
                sheet.writes.deep_view() + overview_bench_cells(
                    *rally,
                    *driver,
                    benchmarks@,
                    s as int,
                    overall,
                    classw,
                    j as int,
                ) == pre_w + row3 + overview_bench_cells(
                    *rally,
                    *driver,
                    benchmarks@,
                    s as int,
                    overall,
                    classw,
                    0,
                ),
            decreases nb - j,
        {
            let idx = benchmarks[j];
            let e = &rally.entries[idx];
            proof {
                assert(rally.entries@[idx as int] == bench_entry(*rally, benchmarks@, j as int));
                assert(entry_wf(rally.entries@[idx as int], rally.stages@.len() as nat));
            }
            let bt = e.times[s];
            let b_super = match e.colors[s] {
                BoxColor::Red => true,
                BoxColor::Empty => false,
            };
            let b_style = classify(bt, overall, classw, b_super);
            let ghost pre_j = sheet.writes.deep_view();
            push_cell(
                sheet,
                2 + (s as u32),
                4 + 2 * (j as u16),
                CellValue::Text(bt.to_string()),
                b_style,
            );
            let ghost tcell = gtext(
                2 + s as int,
                4 + 2 * (j as int),
                time_chars(bt.tenths as nat),
                spec_classify(bt, overall, classw, e.colors@[s as int] == BoxColor::Red),
            );
            let ghost dcells: Seq<GCell>;
            if bt.tenths != 0 && driver_time.tenths != 0 {
                let d = driver_time.diff_per_mile(&bt, stage.length);
                push_cell(
                    sheet,
                    2 + (s as u32),
                    5 + 2 * (j as u16),
                    CellValue::Text(d.to_string()),
                    delta_style(d.kind),
                );
                proof {
                    dcells = seq![
                        gtext(
                            2 + s as int,
                            5 + 2 * (j as int),
                            delta_chars(d),
                            spec_delta_style(d.kind),
                        ),
                    ];
                }
            } else {
                proof {
                    dcells = Seq::empty();
                }
            }
            proof {
                assert(sheet.writes.deep_view() =~= pre_j + (seq![tcell] + dcells));
                assert(overview_bench_cells(
                    *rally,
                    *driver,
                    benchmarks@,
                    s as int,
                    overall,
                    classw,
                    j as int,
                ) =~= seq![tcell] + dcells + overview_bench_cells(
                    *rally,
                    *driver,
                    benchmarks@,
                    s as int,
                    overall,
                    classw,
                    j as int + 1,
                ));
                assert(sheet.writes.deep_view() + overview_bench_cells(
                    *rally,
                    *driver,
                    benchmarks@,
                    s as int,
                    overall,
                    classw,
                    j as int + 1,
                ) =~= pre_w + row3 + overview_bench_cells(
                    *rally,
                    *driver,
                    benchmarks@,
                    s as int,
                    overall,
                    classw,
                    0,
                ));
            }
            j = j + 1;
        }
        proof {
            assert(overview_stage_rows(*rally, *driver, benchmarks@, s as int) =~= row3
                + overview_bench_cells(
                *rally,
                *driver,
                benchmarks@,
                s as int,
                win_time(rally.entries@, s as int, driver.class, None),
                win_time(rally.entries@, s as int, driver.class, Some(driver.category)),
                0,
            ) + overview_stage_rows(*rally, *driver, benchmarks@, s as int + 1));
            assert(sheet.writes.deep_view() + overview_stage_rows(
                *rally,
                *driver,
                benchmarks@,
                s as int + 1,
            ) =~= base_rows + overview_stage_rows(*rally, *driver, benchmarks@, 0));
        }
        s = s + 1;
    }
    proof {
        assert(sheet.writes.deep_view() =~= base_rows + overview_stage_rows(
            *rally,
            *driver,
            benchmarks@,
            0,
        ));
        assert(sheet.writes.deep_view() =~= base_w + overview_cells(*rally, *driver, benchmarks@));
    }
}

/// The focal cumulative split row used by the split sheet: the
/// entry's recorded row when it lines up with the stage's `k`
/// intermediate splits, else `k` invalid placeholders with the stage
/// finish time in the final slot.
pub open spec fn padded_row(e: Entry, s: int, k: nat) -> Seq<StageTime> {
    if entry_row(e, s).len() == k + 1 {
        entry_row(e, s)
    } else {
        Seq::new(k, |j: int| StageTime { tenths: 0 }).push(e.times@[s])
    }
}

/// A row that is invalid everywhere except possibly its last slot can
/// always be sector-derived.
proof fn lemma_zeros_prefix_ok(row: Seq<StageTime>, i: int)
    requires
        0 <= i <= row.len(),
        forall|j: int| i <= j < row.len() - 1 ==> row[j].tenths == 0,
    ensures
        sector_row_ok_from(row, i, 0),
    decreases row.len() - i,
{
    if i < row.len() {
        if row[i].tenths == 0 {
            lemma_zeros_prefix_ok(row, i + 1);
        } else {
            assert(i == row.len() - 1);
            assert(sector_row_ok_from(row, i + 1, row[i].tenths - 0));
        }
    }
}

/// Builds the padded cumulative row and its sector row for one entry
/// on stage `s` of a stage with `k` intermediate splits.
fn padded_row_and_sectors(e: &Entry, s: usize, k: usize) -> (pair: (Vec<StageTime>, Vec<StageTime>))
    requires
        s < e.times@.len(),
        e.splits matches Some(sp) ==> sp@.len() == e.times@.len(),
        forall|i: int| 0 <= i < e.times@.len() ==> sector_row_ok(#[trigger] entry_row(*e, i)),
        k < usize::MAX,
    ensures
        pair.0@ == padded_row(*e, s as int, k as nat),
        pair.1@ == sector_row(padded_row(*e, s as int, k as nat)),
        pair.0@.len() == k + 1,
        pair.1@.len() == k + 1,
{
    let finish = e.times[s];
    let mut row: Vec<StageTime> = Vec::new();
    let mut matched = false;
    match &e.splits {
        Some(sp) => {
            let stage_splits = &sp[s];
            let ghost target = stage_splits@;
            if stage_splits.len() == k {
                let mut j: usize = 0;
                while j < k
                    invariant
                        j <= k,
                        stage_splits@ == target,
                        target.len() == k,
                        row@ == target.subrange(0, j as int),
                    decreases k - j,
                {
                    row.push(stage_splits[j]);
                    j = j + 1;
                }
                proof {
                    assert(row@ =~= target);
                }
                matched = true;
            }
        },
        None => {
            if k == 0 {
                matched = true;
            }
        },
    }
    if !matched {
        let mut j: usize = 0;
        while j < k
            invariant
                j <= k,
                row@ == Seq::new(j as nat, |t: int| StageTime { tenths: 0 }),
            decreases k - j,
        {
            proof {
                assert(row@.push(StageTime { tenths: 0 }) =~= Seq::new(
                    j as nat + 1,
                    |t: int| StageTime { tenths: 0 },
                ));
            }
            row.push(StageTime { tenths: 0 });
            j = j + 1;
        }
    }
    row.push(finish);
    proof {
        if matched {
            assert(row@ =~= entry_row(*e, s as int));
            assert(entry_row(*e, s as int).len() == k + 1);
        } else {
            assert(entry_row(*e, s as int).len() != k + 1);
            assert(row@ =~= Seq::new(k as nat, |j: int| StageTime { tenths: 0 }).push(
                e.times@[s as int],
            ));
            assert forall|j: int| 0 <= j < row@.len() - 1 implies row@[j].tenths == 0 by {}
            lemma_zeros_prefix_ok(row@, 0);
        }
        assert(sector_row_ok(padded_row(*e, s as int, k as nat)));
        crate::structures::lemma_sector_row_len(padded_row(*e, s as int, k as nat), 0, 0);
    }
    let sectors = crate::structures::derive_sectors(&row);
    (row, sectors)
}

/// The split sheet's per-split header cells from split `j` on: the
/// split distance and the two delta-column labels, three columns per
/// split.
pub open spec fn split_header_cells(dists: Seq<u64>, j: int) -> Seq<GCell>
    decreases dists.len() - j,
{
    if j < 0 || j >= dists.len() {
        Seq::empty()
    } else {
        seq![
            gnum(1, (1 + j) * 3, dists[j], StyleIntent::StageLength),
            gtext(1, (1 + j) * 3 + 1, "Diff s/mi"@, StyleIntent::StageName),
            gtext(1, (1 + j) * 3 + 2, "Cumulative s/mi"@, StyleIntent::StageName),
        ] + split_header_cells(dists, j + 1)
    }
}

/// The focal driver's formatted cumulative split times from split `j`
/// on; the focal row carries no deltas.
pub open spec fn driver_split_cells(drow: Seq<StageTime>, j: int) -> Seq<GCell>
    decreases drow.len() - j,
{
    if j < 0 || j >= drow.len() {
        Seq::empty()
    } else {
        seq![gtext(2, j * 3 + 3, time_chars(drow[j].tenths as nat), StyleIntent::PlainTime)]
            + driver_split_cells(drow, j + 1)
    }
}

/// One benchmark row's cells from split `j` on: the formatted
/// cumulative time and — only when this split and the focal driver's
/// are both valid — the sector delta (normalized by this sector's
/// distance) and the cumulative delta (normalized by the distance
/// from the stage start).
pub open spec fn bench_split_cells(
    dists: Seq<u64>,
    drow: Seq<StageTime>,
    dsec: Seq<StageTime>,
    brow: Seq<StageTime>,
    bsec: Seq<StageTime>,
    row: int,
    j: int,
) -> Seq<GCell>
    decreases dists.len() - j,
{
    if j < 0 || j >= dists.len() {
        Seq::empty()
    } else {
        let tcell = gtext(row, j * 3 + 3, time_chars(brow[j].tenths as nat), StyleIntent::PlainTime);
        let dcells: Seq<GCell> = if brow[j].tenths != 0 && drow[j].tenths != 0 {
            let sd = spec_diff_per_mile(dsec[j], bsec[j], (dists[j] - prev_split(dists, j)) as u64);
            let cd = spec_diff_per_mile(drow[j], brow[j], dists[j]);
            seq![
                gtext(row, j * 3 + 4, delta_chars(sd), spec_delta_style(sd.kind)),
                gtext(row, j * 3 + 5, delta_chars(cd), spec_delta_style(cd.kind)),
            ]
        } else {
            Seq::empty()
        };
        seq![tcell] + dcells + bench_split_cells(dists, drow, dsec, brow, bsec, row, j + 1)
    }
}

/// The benchmark rows of the split sheet from benchmark `r` on: each
/// row starts with the team names and continues with that
/// benchmark's split cells.
pub open spec fn bench_split_rows(
    rally: Rally,
    bench: Seq<usize>,
    uids: Map<usize, Uid>,
    dists: Seq<u64>,
    drow: Seq<StageTime>,
    dsec: Seq<StageTime>,
    s: int,
    r: int,
) -> Seq<GCell>
    decreases bench.len() - r,
{
    if r < 0 || r >= bench.len() {
        Seq::empty()
    } else {
        let e = bench_entry(rally, bench, r);
        let brow = padded_row(e, s, (dists.len() - 1) as nat);
        let bsec = sector_row(brow);
        seq![gtext(3 + r, 0, names_chars(e, uids), StyleIntent::Bold)] + bench_split_cells(
            dists,
            drow,
            dsec,
            brow,
            bsec,
            3 + r,
            0,
        ) + bench_split_rows(rally, bench, uids, dists, drow, dsec, s, r + 1)
    }
}

/// Every cell write of one stage's split sheet, in emission order:
/// the stage header, the per-split column headers, the focal driver's
/// row, then one row per benchmark.
pub open spec fn split_sheet_cells(
    rally: Rally,
    driver: Entry,
    bench: Seq<usize>,
    uids: Map<usize, Uid>,
    s: int,
) -> Seq<GCell> {
    let stage = rally.stages@[s];
    let dists = stage_splits_spec(stage);
    let drow = padded_row(driver, s, (dists.len() - 1) as nat);
    let dsec = sector_row(drow);
    seq![
        gtext(0, 0, stage.name@, StyleIntent::Bold),
        gtext(0, 1, "Length"@, StyleIntent::Heading),
        gnum(0, 2, stage.length, StyleIntent::StageLength),
        gtext(1, 0, "Team"@, StyleIntent::Heading),
    ] + split_header_cells(dists, 0) + seq![
        gtext(2, 0, names_chars(driver, uids), StyleIntent::Heading),
    ] + driver_split_cells(drow, 0) + bench_split_rows(rally, bench, uids, dists, drow, dsec, s, 0)
}

/// Appends one benchmark's split-sheet row: the team names, then the
/// benchmark's split cells against the focal driver's rows.
#[verifier::rlimit(100)]
fn push_bench_split_row(
    rally: &Rally,
    uids: &UidMap,
    e_idx: usize,
    dists: &Vec<u64>,
    drow: &Vec<StageTime>,
    dsec: &Vec<StageTime>,
    s: usize,
    r: usize,
    sheet: &mut Sheet,
)
    requires
        rally_wf(*rally),
        uids_ok(*rally, uids@),
        e_idx < rally.entries@.len(),
        r <= 32765,
        s < rally.stages@.len(),
        dists@.len() >= 1,
        dists@.len() <= 21844,
        drow@.len() == dists@.len(),
        dsec@.len() == dists@.len(),
        forall|j: int| 0 <= j < dists@.len() ==> dists@[j] > #[trigger] prev_split(dists@, j),
    ensures
        final(sheet).name == old(sheet).name,
        final(sheet).merges == old(sheet).merges,
        final(sheet).widths == old(sheet).widths,
        final(sheet).writes.deep_view() == old(sheet).writes.deep_view() + seq![
            gtext(
                3 + r as int,
                0,
                names_chars(rally.entries@[e_idx as int], uids@),
                StyleIntent::Bold,
            ),
        ] + bench_split_cells(
            dists@,
            drow@,
            dsec@,
            padded_row(rally.entries@[e_idx as int], s as int, (dists@.len() - 1) as nat),
            sector_row(
                padded_row(rally.entries@[e_idx as int], s as int, (dists@.len() - 1) as nat),
            ),
            3 + r as int,
            0,
        ),
{
    let ghost base_w = sheet.writes.deep_view();
    let e = &rally.entries[e_idx];
    proof {
        assert(entry_wf(*e, rally.stages@.len() as nat));
    }
    let names = e.names(uids);
    push_cell(sheet, 3 + (r as u32), 0, CellValue::Text(names), StyleIntent::Bold);
    let ghost ncell = seq![
        gtext(3 + r as int, 0, names_chars(rally.entries@[e_idx as int], uids@), StyleIntent::Bold),
    ];
    proof {
        assert(sheet.writes.deep_view() =~= base_w + ncell);
    }
    let k = dists.len() - 1;
    let (brow, bsec) = padded_row_and_sectors(e, s, k);
    let ghost browg = brow@;
    let ghost bsecg = bsec@;
    let n = dists.len();
    let mut j: usize = 0;
    let mut prev: u64 = 0;
    while j < n
        invariant
            j <= n,
            r <= 32765,
            n == dists@.len(),
            1 <= n <= 21844,
            drow@.len() == n,
            dsec@.len() == n,
            browg.len() == n,
            bsecg.len() == n,
            browg == brow@,
            bsecg == bsec@,
            prev == prev_split(dists@, j as int),
            forall|t: int| 0 <= t < dists@.len() ==> dists@[t] > #[trigger] prev_split(dists@, t),
            sheet.name == old(sheet).name,
            sheet.merges == old(sheet).merges,
            sheet.widths == old(sheet).widths,
            sheet.writes.deep_view() + bench_split_cells(
                dists@,
                drow@,
                dsec@,
                browg,
                bsecg,
                3 + r as int,
                j as int,
            ) == base_w + ncell + bench_split_cells(
                dists@,
                drow@,
                dsec@,
                browg,
                bsecg,
                3 + r as int,
                0,
            ),
        decreases n - j,
    {
        let ghost pre_j = sheet.writes.deep_view();
        let bt = brow[j];
        push_cell(
            sheet,
            3 + (r as u32),
            (j * 3 + 3) as u16,
            CellValue::Text(bt.to_string()),
            StyleIntent::PlainTime,
        );
        let ghost tcell = gtext(
            3 + r as int,
            j as int * 3 + 3,
            time_chars(browg[j as int].tenths as nat),
            StyleIntent::PlainTime,
        );
        let ghost dcells: Seq<GCell>;
        if bt.tenths != 0 && drow[j].tenths != 0 {
            let sector_dist = dists[j] - prev;
            let sd = dsec[j].diff_per_mile(&bsec[j], sector_dist);
            let cd = drow[j].diff_per_mile(&brow[j], dists[j]);
            push_cell(
                sheet,
                3 + (r as u32),
                (j * 3 + 4) as u16,
                CellValue::Text(sd.to_string()),
                delta_style(sd.kind),
            );
            push_cell(
                sheet,
                3 + (r as u32),
                (j * 3 + 5) as u16,
                CellValue::Text(cd.to_string()),
                delta_style(cd.kind),
            );
            proof {
                dcells = seq![
                    gtext(3 + r as int, j as int * 3 + 4, delta_chars(sd), spec_delta_style(
                        sd.kind,
                    )),
                    gtext(3 + r as int, j as int * 3 + 5, delta_chars(cd), spec_delta_style(
                        cd.kind,
                    )),
                ];
            }
        } else {
            proof {
                dcells = Seq::empty();
            }
        }
        proof {
            assert(sheet.writes.deep_view() =~= pre_j + (seq![tcell] + dcells));
            assert(bench_split_cells(
                dists@,
                drow@,
                dsec@,
                browg,
                bsecg,
                3 + r as int,
                j as int,
            ) =~= seq![tcell] + dcells + bench_split_cells(
                dists@,
                drow@,
                dsec@,
                browg,
                bsecg,
                3 + r as int,
                j as int + 1,
            ));
            assert(sheet.writes.deep_view() + bench_split_cells(
                dists@,
                drow@,
                dsec@,
                browg,
                bsecg,
                3 + r as int,
                j as int + 1,
            ) =~= base_w + ncell + bench_split_cells(
                dists@,
                drow@,
                dsec@,
                browg,
                bsecg,
                3 + r as int,
                0,
            ));
        }
        prev = dists[j];
        j = j + 1;
    }
    proof {
        assert(sheet.writes.deep_view() =~= base_w + ncell + bench_split_cells(
            dists@,
            drow@,
            dsec@,
            browg,
            bsecg,
            3 + r as int,
            0,
        ));
    }
}

/// Builds one stage's split sheet: appends its column width and every
/// cell write of the split layout to `sheet`, in order.
#[verifier::rlimit(100)]
pub fn build_stage_with_splits(
    rally: &Rally,
    uids: &UidMap,
    driver: &Entry,
    benchmarks: &Vec<usize>,
    stage: &Stage,
    stage_index: usize,
    sheet: &mut Sheet,
)
    requires
        rally_wf(*rally),
        rally_fits(*rally),
        uids_ok(*rally, uids@),
        entry_wf(*driver, rally.stages@.len() as nat),
        uids@.contains_key(driver.driver_uid),
        uids@.contains_key(driver.codriver_uid),
        forall|i: int| 0 <= i < benchmarks@.len() ==> (#[trigger] benchmarks@[i]) < rally.entries@.len(),
        benchmarks@.len() <= 32765,
        stage_index < rally.stages@.len(),
        *stage == rally.stages@[stage_index as int],
    ensures
        final(sheet).name == old(sheet).name,
        final(sheet).merges == old(sheet).merges,
        final(sheet).widths@ == old(sheet).widths@ + seq![ColumnWidth { col: 0, width: 18 }],
        final(sheet).writes.deep_view() == old(sheet).writes.deep_view() + split_sheet_cells(
            *rally,
            *driver,
            benchmarks@,
            uids@,
            stage_index as int,
        ),
{
    let ghost base_w = sheet.writes.deep_view();
    let ghost base_c = sheet.widths@;
    proof {
        lemma_stage_splits_increasing(*stage);
    }

    sheet.widths.push(ColumnWidth { col: 0, width: 18 });
    push_cell(sheet, 0, 0, CellValue::Text(stage.name.clone()), StyleIntent::Bold);
    push_cell(sheet, 0, 1, CellValue::Text("Length".to_owned()), StyleIntent::Heading);
    push_cell(sheet, 0, 2, CellValue::Hundredths(stage.length), StyleIntent::StageLength);
    push_cell(sheet, 1, 0, CellValue::Text("Team".to_owned()), StyleIntent::Heading);
    let ghost head4 = seq![
        gtext(0, 0, rally.stages@[stage_index as int].name@, StyleIntent::Bold),
        gtext(0, 1, "Length"@, StyleIntent::Heading),
        gnum(0, 2, rally.stages@[stage_index as int].length, StyleIntent::StageLength),
        gtext(1, 0, "Team"@, StyleIntent::Heading),
    ];
    proof {
        assert(sheet.widths@ =~= base_c + seq![ColumnWidth { col: 0, width: 18 }]);
        assert(sheet.writes.deep_view() =~= base_w + head4);
    }

    let dists = stage.splits_with_finish();
    let ghost distsg = dists@;
    proof {
        assert(distsg == stage_splits_spec(rally.stages@[stage_index as int]));
        assert(match rally.stages@[stage_index as int].splits {
            Some(sp) => sp@.len() <= 21843,
            None => true,
        });
        assert(1 <= distsg.len() <= 21844);
    }
    let n = dists.len();
    let mut j: usize = 0;
    while j < n
        invariant
            j <= n,
            n == dists@.len(),
            1 <= n <= 21844,
            sheet.name == old(sheet).name,
            sheet.merges == old(sheet).merges,
            sheet.widths@ == base_c + seq![ColumnWidth { col: 0, width: 18 }],
            sheet.writes.deep_view() + split_header_cells(dists@, j as int) == base_w + head4
                + split_header_cells(dists@, 0),
        decreases n - j,
    {
        let ghost pre_j = sheet.writes.deep_view();
        let col = ((1 + j) * 3) as u16;
        push_cell(sheet, 1, col, CellValue::Hundredths(dists[j]), StyleIntent::StageLength);
        push_cell(sheet, 1, col + 1, CellValue::Text("Diff s/mi".to_owned()), StyleIntent::StageName);
        push_cell(
            sheet,
            1,
            col + 2,
            CellValue::Text("Cumulative s/mi".to_owned()),
            StyleIntent::StageName,
        );
        proof {
            let c1 = gnum(1, (1 + j as int) * 3, dists@[j as int], StyleIntent::StageLength);
            let c2 = gtext(1, (1 + j as int) * 3 + 1, "Diff s/mi"@, StyleIntent::StageName);
            let c3 = gtext(1, (1 + j as int) * 3 + 2, "Cumulative s/mi"@, StyleIntent::StageName);
            assert(sheet.writes.deep_view() =~= pre_j + seq![c1, c2, c3]);
            assert(split_header_cells(dists@, j as int) =~= seq![c1, c2, c3] + split_header_cells(
                dists@,
                j as int + 1,
            ));
            assert(sheet.writes.deep_view() + split_header_cells(dists@, j as int + 1) =~= base_w
                + head4 + split_header_cells(dists@, 0));
        }
        j = j + 1;
    }

    let k = n - 1;
    let (drow, dsec) = padded_row_and_sectors(driver, stage_index, k);
    let ghost drowg = drow@;
    let ghost dsecg = dsec@;
    let dnames = driver.names(uids);
    let ghost base_d = sheet.writes.deep_view();
    proof {
        assert(base_d =~= base_w + head4 + split_header_cells(distsg, 0));
    }
    push_cell(sheet, 2, 0, CellValue::Text(dnames), StyleIntent::Heading);
    let ghost dncell = seq![gtext(2, 0, names_chars(*driver, uids@), StyleIntent::Heading)];
    proof {
        assert(sheet.writes.deep_view() =~= base_d + dncell);
    }
    let mut j2: usize = 0;
    while j2 < n
        invariant
            j2 <= n,
            n == dists@.len(),
            1 <= n <= 21844,
            drowg == drow@,
            drowg.len() == n,
            sheet.name == old(sheet).name,
            sheet.merges == old(sheet).merges,
            sheet.widths@ == base_c + seq![ColumnWidth { col: 0, width: 18 }],
            sheet.writes.deep_view() + driver_split_cells(drowg, j2 as int) == base_d + dncell
                + driver_split_cells(drowg, 0),
        decreases n - j2,
    {
        let ghost pre_j = sheet.writes.deep_view();
        push_cell(
            sheet,
            2,
            (j2 * 3 + 3) as u16,
            CellValue::Text(drow[j2].to_string()),
            StyleIntent::PlainTime,
        );
        proof {
            let c = gtext(
                2,
                j2 as int * 3 + 3,
                time_chars(drowg[j2 as int].tenths as nat),
                StyleIntent::PlainTime,
            );
            assert(sheet.writes.deep_view() =~= pre_j + seq![c]);
            assert(driver_split_cells(drowg, j2 as int) =~= seq![c] + driver_split_cells(
                drowg,
                j2 as int + 1,
            ));
            assert(sheet.writes.deep_view() + driver_split_cells(drowg, j2 as int + 1) =~= base_d
                + dncell + driver_split_cells(drowg, 0));
        }
        j2 = j2 + 1;
    }

    let ghost base_b = sheet.writes.deep_view();
    proof {
        assert(base_b =~= base_d + dncell + driver_split_cells(drowg, 0));
    }
    let nb = benchmarks.len();
    let mut r: usize = 0;
    while r < nb
        invariant
            r <= nb,
            nb == benchmarks@.len(),
            n == dists@.len(),
            1 <= n <= 21844,
            distsg == dists@,
            drowg == drow@,
            dsecg == dsec@,
            drowg.len() == n,
            dsecg.len() == n,
            rally_wf(*rally),
            rally_fits(*rally),
            uids_ok(*rally, uids@),
            forall|i: int|
                0 <= i < benchmarks@.len() ==> (#[trigger] benchmarks@[i]) < rally.entries@.len(),
            benchmarks@.len() <= 32765,
            stage_index < rally.stages@.len(),
            forall|t: int| 0 <= t < dists@.len() ==> dists@[t] > #[trigger] prev_split(dists@, t),
            sheet.name == old(sheet).name,
            sheet.merges == old(sheet).merges,
            sheet.widths@ == base_c + seq![ColumnWidth { col: 0, width: 18 }],
            sheet.writes.deep_view() + bench_split_rows(
                *rally,
                benchmarks@,
                uids@,
                distsg,
                drowg,
                dsecg,
                stage_index as int,
                r as int,
            ) == base_b + bench_split_rows(
                *rally,
                benchmarks@,
                uids@,
                distsg,
                drowg,
                dsecg,
                stage_index as int,
                0,
            ),
        decreases nb - r,
    {
        let ghost pre_r = sheet.writes.deep_view();
        let e_idx = benchmarks[r];
        push_bench_split_row(rally, uids, e_idx, &dists, &drow, &dsec, stage_index, r, sheet);
        proof {
            let e = bench_entry(*rally, benchmarks@, r as int);
            let brow = padded_row(e, stage_index as int, (distsg.len() - 1) as nat);
            let bsec = sector_row(brow);
            let rowcells = seq![gtext(3 + r as int, 0, names_chars(e, uids@), StyleIntent::Bold)]
                + bench_split_cells(distsg, drowg, dsecg, brow, bsec, 3 + r as int, 0);
            assert(sheet.writes.deep_view() =~= pre_r + rowcells);
            assert(bench_split_rows(
                *rally,
                benchmarks@,
                uids@,
                distsg,
                drowg,
                dsecg,
                stage_index as int,
                r as int,
            ) =~= rowcells + bench_split_rows(
                *rally,
                benchmarks@,
                uids@,
                distsg,
                drowg,
                dsecg,
                stage_index as int,
                r as int + 1,
            ));
            assert(sheet.writes.deep_view() + bench_split_rows(
                *rally,
                benchmarks@,
                uids@,
                distsg,
                drowg,
                dsecg,
                stage_index as int,
                r as int + 1,
            ) =~= base_b + bench_split_rows(
                *rally,
                benchmarks@,
                uids@,
                distsg,
                drowg,
                dsecg,
                stage_index as int,
                0,
            ));
        }
        r = r + 1;
    }
    proof {
        assert(sheet.writes.deep_view() =~= base_w + split_sheet_cells(
            *rally,
            *driver,
            benchmarks@,
            uids@,
            stage_index as int,
        ));
    }
}

/// Every split distance, the stage length included, exceeds the one
/// before it.
proof fn lemma_stage_splits_increasing(stage: Stage)
    requires
        stage_wf(stage),
    ensures
        forall|j: int|
            0 <= j < stage_splits_spec(stage).len() ==> stage_splits_spec(stage)[j] > #[trigger]
                prev_split(stage_splits_spec(stage), j),
{
    let dists = stage_splits_spec(stage);
    assert forall|j: int| 0 <= j < dists.len() implies dists[j] > prev_split(dists, j) by {
        match stage.splits {
            Some(sp) => {
                if j < sp@.len() {
                    assert(sp@[j] > prev_split(sp@, j));
                    assert(dists[j] == sp@[j]);
                    assert(prev_split(dists, j) == prev_split(sp@, j));
                } else {
                    assert(dists[j] == stage.length);
                    if j == 0 {
                    } else {
                        assert(sp@[j - 1] > prev_split(sp@, j - 1));
                        assert(sp@[j - 1] < stage.length);
                    }
                }
            },
            None => {
                assert(dists[j] == stage.length);
            },
        }
    }
}

/// The error the report builder raises when the focal competitor
/// number is not present in the rally.
#[derive(Clone, Debug)]
pub struct SpreadSheetError {
    pub message: String,
}

impl SpreadSheetError {
    /// Wraps a diagnostic message.
    pub fn new(msg: String) -> (r: Self)
        ensures
            r.message == msg,
    {
        SpreadSheetError { message: msg }
    }

    /// The diagnostic message.
    pub fn message(&self) -> (r: &str)
        ensures
            r@ == self.message@,
    {
        self.message.as_str()
    }
}

/// Placeholder for precomputed comparison data.
pub struct RallyData {}

/// Resolves the focal entry, as the report builder does; the focal
/// competitor number must be present in the rally.
pub fn build_data(rally: &Rally, driver: usize, benchmarks: &[usize]) -> (r: RallyData)
    requires
        find_entry(rally.entries@, driver) is Some,
{
    let _driver_entry = rally.entry_by_driver_number(driver).unwrap();
    RallyData {  }
}

/// The message of the missing-driver error: it names the requested
/// number and the rally title.
pub open spec fn driver_missing_chars(number: usize, title: Seq<char>) -> Seq<char> {
    "Driver "@ + dec_chars(number as nat) + " did not race in "@ + title
}

/// The indices of the rally entries whose competitor number is among
/// the requested benchmark numbers, in entry order. A requested
/// number that no entry carries is silently omitted.
pub open spec fn bench_indices(entries: Seq<Entry>, numbers: Seq<usize>) -> Seq<usize>
    decreases entries.len(),
{
    if entries.len() == 0 {
        Seq::empty()
    } else {
        bench_indices(entries.drop_last(), numbers) + (if numbers.contains(
            entries.last().number,
        ) {
            seq![(entries.len() - 1) as usize]
        } else {
            Seq::empty()
        })
    }
}

/// Benchmark indices point into the entry sequence, and there are at
/// most as many as there are entries.
proof fn lemma_bench_indices_bounds(entries: Seq<Entry>, numbers: Seq<usize>)
    ensures
        bench_indices(entries, numbers).len() <= entries.len(),
        forall|i: int|
            0 <= i < bench_indices(entries, numbers).len() ==> #[trigger] bench_indices(
                entries,
                numbers,
            )[i] < entries.len(),
    decreases entries.len(),
{
    if entries.len() > 0 {
        lemma_bench_indices_bounds(entries.drop_last(), numbers);
    }
}

/// Whether the slice holds the number.
fn contains_number(numbers: &[usize], x: usize) -> (b: bool)
    ensures
        b == numbers@.contains(x),
{
    let n = numbers.len();
    let mut j: usize = 0;
    while j < n
        invariant
            j <= n,
            n == numbers@.len(),
            forall|t: int| 0 <= t < j ==> numbers@[t] != x,
        decreases n - j,
    {
        if numbers[j] == x {
            return true;
        }
        j = j + 1;
    }
    false
}

/// Selects the benchmark entries by competitor number: the indices of
/// the entries whose number is among the requested ones, in entry
/// order; requested numbers that nobody carries are silently omitted.
pub fn select_benchmarks(rally: &Rally, numbers: &[usize]) -> (r: Vec<usize>)
    ensures
        r@ == bench_indices(rally.entries@, numbers@),
        r@.len() <= rally.entries@.len(),
        forall|i: int| 0 <= i < r@.len() ==> #[trigger] r@[i] < rally.entries@.len(),
{
    let n = rally.entries.len();
    let mut out: Vec<usize> = Vec::new();
    let mut i: usize = 0;
    proof {
        assert(rally.entries@.take(0) =~= Seq::<Entry>::empty());
    }
    while i < n
        invariant
            i <= n,
            n == rally.entries@.len(),
            out@ == bench_indices(rally.entries@.take(i as int), numbers@),
        decreases n - i,
    {
        proof {
            assert(rally.entries@.take(i as int + 1).drop_last() =~= rally.entries@.take(i as int));
            assert(rally.entries@.take(i as int + 1).last() == rally.entries@[i as int]);
        }
        if contains_number(numbers, rally.entries[i].number) {
            out.push(i);
            proof {
                assert(out@ =~= bench_indices(rally.entries@.take(i as int + 1), numbers@));
            }
        }
        i = i + 1;
    }
    proof {
        assert(rally.entries@.take(n as int) =~= rally.entries@);
        lemma_bench_indices_bounds(rally.entries@, numbers@);
    }
    out
}

/// Whether a stage carries at least one intermediate split.
pub open spec fn stage_has_splits(s: Stage) -> bool {
    match s.splits {
        Some(sp) => sp@.len() > 0,
        None => false,
    }
}

/// The indices of the stages that get a split sheet: those with at
/// least one intermediate split, in stage order.
pub open spec fn split_stage_indices(stages: Seq<Stage>) -> Seq<usize>
    decreases stages.len(),
{
    if stages.len() == 0 {
        Seq::empty()
    } else {
        split_stage_indices(stages.drop_last()) + (if stage_has_splits(stages.last()) {
            seq![(stages.len() - 1) as usize]
        } else {
            Seq::empty()
        })
    }
}

/// The name of a split sheet: `SS`, the one-based stage number, a
/// space, and the stage name.
pub open spec fn split_sheet_name_chars(n: int, name: Seq<char>) -> Seq<char> {
    "SS"@ + dec_chars(n as nat) + seq![' '] + name
}

/// Renders a split-sheet name.
fn split_sheet_name(n: u64, name: &String) -> (r: String)
    ensures
        r@ == split_sheet_name_chars(n as int, name@),
{
    proof {
        reveal_strlit(" ");
    }
    let mut out = "SS".to_owned();
    push_decimal(&mut out, n);
    out.append(" ");
    out.append(name.as_str());
    proof {
        assert(out@ =~= split_sheet_name_chars(n as int, name@));
    }
    out
}

/// What the finished workbook looks like: the overview sheet named by
/// the rally slug, followed by one split sheet per stage that has
/// intermediate splits, in stage order, each carrying exactly the
/// layout's cell writes.
pub open spec fn workbook_matches(
    wb: Workbook,
    rally: Rally,
    driver: Entry,
    bench: Seq<usize>,
    uids: Map<usize, Uid>,
) -> bool {
    let idxs = split_stage_indices(rally.stages@);
    &&& wb.sheets@.len() == 1 + idxs.len()
    &&& wb.sheets@[0].name@ == rally.slug@
    &&& wb.sheets@[0].writes.deep_view() == overview_cells(rally, driver, bench)
    &&& wb.sheets@[0].merges.deep_view() == overview_bench_merges(rally, bench, uids, 0)
    &&& wb.sheets@[0].widths@ == seq![
        ColumnWidth { col: 0, width: 18 },
        ColumnWidth { col: 1, width: 8 },
    ]
    &&& forall|t: int|
        0 <= t < idxs.len() ==> {
            let sh = #[trigger] wb.sheets@[1 + t];
            let s = idxs[t] as int;
            &&& sh.name@ == split_sheet_name_chars(s + 1, rally.stages@[s].name@)
            &&& sh.writes.deep_view() == split_sheet_cells(rally, driver, bench, uids, s)
            &&& sh.merges.deep_view() == Seq::<GMerge>::empty()
            &&& sh.widths@ == seq![ColumnWidth { col: 0, width: 18 }]
        }
}

/// If an entry is found by number, it lies in the sequence and
/// carries that number.
proof fn lemma_find_entry_props(entries: Seq<Entry>, number: usize)
    requires
        find_entry(entries, number) is Some,
    ensures
        exists|i: int|
            0 <= i < entries.len() && entries[i] == find_entry(entries, number).unwrap(),
        find_entry(entries, number).unwrap().number == number,
    decreases entries.len(),
{
    if entries.len() > 0 && entries[0].number != number {
        lemma_find_entry_props(entries.drop_first(), number);
        let i = choose|i: int|
            0 <= i < entries.drop_first().len() && entries.drop_first()[i] == find_entry(
                entries.drop_first(),
                number,
            ).unwrap();
        assert(entries[i + 1] == find_entry(entries, number).unwrap());
    }
}

/// Builds the whole comparison report: resolves the focal entry by
/// competitor number (failing with an error that names the number and
/// the rally title when it is absent), selects the benchmark entries,
/// and produces the overview sheet followed by one split sheet per
/// stage with intermediate splits, in stage order.
#[verifier::rlimit(100)]
pub fn build_spreadsheet(
    rally: &Rally,
    uids: &UidMap,
    driver: usize,
    benchmarks: &[usize],
) -> (r: Result<Workbook, SpreadSheetError>)
    requires
        rally_wf(*rally),
        rally_fits(*rally),
        uids_ok(*rally, uids@),
    ensures
        match r {
            Ok(wb) => find_entry(rally.entries@, driver) matches Some(d) && workbook_matches(
                wb,
                *rally,
                d,
                bench_indices(rally.entries@, benchmarks@),
                uids@,
            ),
            Err(e) => find_entry(rally.entries@, driver) is None && e.message@
                == driver_missing_chars(driver, rally.title@),
        },
{
    let driver_entry = match rally.entry_by_driver_number(driver) {
        Some(e) => e,
        None => {
            proof {
                reveal_strlit("Driver ");
                reveal_strlit(" did not race in ");
            }
            let mut msg = "Driver ".to_owned();
            push_decimal(&mut msg, driver as u64);
            msg.append(" did not race in ");
            msg.append(rally.title.as_str());
            proof {
                assert(msg@ =~= driver_missing_chars(driver, rally.title@));
            }
            return Err(SpreadSheetError::new(msg));
        },
    };
    proof {
        lemma_find_entry_props(rally.entries@, driver);
        let i = choose|i: int|
            0 <= i < rally.entries@.len() && rally.entries@[i] == find_entry(
                rally.entries@,
                driver,
            ).unwrap();
        assert(entry_wf(rally.entries@[i], rally.stages@.len() as nat));
        assert(uids@.contains_key(rally.entries@[i].driver_uid));
        assert(uids@.contains_key(rally.entries@[i].codriver_uid));
    }
    let bench = select_benchmarks(rally, benchmarks);

    let mut sheets: Vec<Sheet> = Vec::new();
    let mut overview = Sheet::new(rally.slug.clone());
    build_overview(rally, uids, driver_entry, &bench, &mut overview);
    sheets.push(overview);

    let ns = rally.stages.len();
    let mut s: usize = 0;
    proof {
        assert(rally.stages@.take(0) =~= Seq::<Stage>::empty());
    }
    while s < ns
        invariant
            s <= ns,
            ns == rally.stages@.len(),
            rally_wf(*rally),
            rally_fits(*rally),
            uids_ok(*rally, uids@),
            entry_wf(*driver_entry, rally.stages@.len() as nat),
            uids@.contains_key(driver_entry.driver_uid),
            uids@.contains_key(driver_entry.codriver_uid),
            find_entry(rally.entries@, driver) == Some(*driver_entry),
            bench@ == bench_indices(rally.entries@, benchmarks@),
            bench@.len() <= rally.entries@.len(),
            forall|i: int| 0 <= i < bench@.len() ==> #[trigger] bench@[i] < rally.entries@.len(),
            sheets@.len() == 1 + split_stage_indices(rally.stages@.take(s as int)).len(),
            sheets@[0].name@ == rally.slug@,
            sheets@[0].writes.deep_view() == overview_cells(*rally, *driver_entry, bench@),
            sheets@[0].merges.deep_view() == overview_bench_merges(*rally, bench@, uids@, 0),
            sheets@[0].widths@ == seq![
                ColumnWidth { col: 0, width: 18 },
                ColumnWidth { col: 1, width: 8 },
            ],
            forall|t: int|
                0 <= t < split_stage_indices(rally.stages@.take(s as int)).len() ==> {
                    let sh = #[trigger] sheets@[1 + t];
                    let si = split_stage_indices(rally.stages@.take(s as int))[t] as int;
                    &&& sh.name@ == split_sheet_name_chars(si + 1, rally.stages@[si].name@)
                    &&& sh.writes.deep_view() == split_sheet_cells(
                        *rally,
                        *driver_entry,
                        bench@,
                        uids@,
                        si,
                    )
                    &&& sh.merges.deep_view() == Seq::<GMerge>::empty()
                    &&& sh.widths@ == seq![ColumnWidth { col: 0, width: 18 }]
                },
        decreases ns - s,
    {
        let ghost pre_idxs = split_stage_indices(rally.stages@.take(s as int));
        proof {
            assert(rally.stages@.take(s as int + 1).drop_last() =~= rally.stages@.take(s as int));
            assert(rally.stages@.take(s as int + 1).last() == rally.stages@[s as int]);
        }
        let stage = &rally.stages[s];
        if stage.has_splits() {
            let name = split_sheet_name((s as u64) + 1, &stage.name);
            let mut sheet = Sheet::new(name);
            build_stage_with_splits(rally, uids, driver_entry, &bench, stage, s, &mut sheet);
            sheets.push(sheet);
            proof {
                assert(split_stage_indices(rally.stages@.take(s as int + 1)) =~= pre_idxs + seq![
                    s as usize,
                ]);
            }
        } else {
            proof {
                assert(split_stage_indices(rally.stages@.take(s as int + 1)) =~= pre_idxs);
            }
        }
        s = s + 1;
    }
    proof {
        assert(rally.stages@.take(ns as int) =~= rally.stages@);
    }
    Ok(Workbook { sheets })
}

} // verus!
