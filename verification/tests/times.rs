use sneakattackproto::structures::{parse_stage_time, Delta, DeltaKind, StageTime};

fn parse(s: &str) -> Option<StageTime> {
    parse_stage_time(s)
}

#[test]
fn parse_hours_form() {
    // 1 hour, 2 minutes, 3.4 seconds
    let t = parse("1:02:03.4").unwrap();
    assert_eq!(t.tenths, 37234);
    assert!(t.is_valid());
}

#[test]
fn parse_minutes_form() {
    let t = parse("2:03.4").unwrap();
    assert_eq!(t.tenths, 1234);
}

#[test]
fn parse_seconds_form() {
    let t = parse("3.4").unwrap();
    assert_eq!(t.tenths, 34);
    let t = parse("03.40").unwrap();
    assert_eq!(t.tenths, 34);
}

#[test]
fn parse_no_fraction_form() {
    let t = parse("2:03").unwrap();
    assert_eq!(t.tenths, 1230);
}

#[test]
fn parse_empty_is_invalid_time() {
    let t = parse("").unwrap();
    assert_eq!(t.tenths, 0);
    assert!(!t.is_valid());
}

#[test]
fn parse_rejects_other_text() {
    assert!(parse("abc").is_none());
    assert!(parse("3").is_none());
    assert!(parse("3.").is_none());
    assert!(parse(".4").is_none());
    assert!(parse("1:02:03").is_none());
    assert!(parse("1:2").is_some());
    assert!(parse("1::2.0").is_none());
    assert!(parse("1:02:03.4:5").is_none());
    assert!(parse(" 3.4").is_none());
    assert!(parse("3.4 ").is_none());
    assert!(parse("-3.4").is_none());
}

#[test]
fn parse_rounds_fraction_to_tenths() {
    assert_eq!(parse("3.44").unwrap().tenths, 34);
    assert_eq!(parse("3.45").unwrap().tenths, 35);
    assert_eq!(parse("3.449").unwrap().tenths, 34);
    // rounding can carry into the seconds
    assert_eq!(parse("3.96").unwrap().tenths, 40);
}

#[test]
fn format_shapes() {
    assert_eq!(StageTime { tenths: 0 }.to_string(), "00.00");
    assert_eq!(StageTime { tenths: 34 }.to_string(), "03.40");
    assert_eq!(StageTime { tenths: 599 }.to_string(), "59.90");
    assert_eq!(StageTime { tenths: 600 }.to_string(), "01:00.00");
    assert_eq!(StageTime { tenths: 1234 }.to_string(), "02:03.40");
    assert_eq!(StageTime { tenths: 36000 }.to_string(), "1:00:00.00");
    assert_eq!(StageTime { tenths: 37234 }.to_string(), "1:02:03.40");
}

#[test]
fn format_parse_round_trip() {
    // parse -> format need not reproduce the input, but re-parsing the
    // formatted output must yield an equal time.
    for input in ["1:02:03.4", "2:03.4", "3.4", "2:03", "", "59.96", "0.0"] {
        let t = parse(input).unwrap();
        let shown = t.to_string();
        let again = parse(&shown).unwrap();
        assert_eq!(t, again, "round trip failed for {input} (shown as {shown})");
    }
}

#[test]
fn round_trip_scenario_hours() {
    let t = parse("1:02:03.4").unwrap();
    assert!(t.is_valid());
    assert_eq!(t.to_string(), "1:02:03.40");
    assert_eq!(parse("1:02:03.40").unwrap(), t);
}

#[test]
fn diff_equal_operands_is_equal() {
    let a = StageTime { tenths: 650 };
    let d = a.diff_per_mile(&a, 1000);
    assert_eq!(d.delta, 0);
    assert!(matches!(d.kind, DeltaKind::Equal));
}

#[test]
fn diff_is_antisymmetric() {
    let a = StageTime { tenths: 650 };
    let b = StageTime { tenths: 600 };
    let ab = a.diff_per_mile(&b, 1000);
    let ba = b.diff_per_mile(&a, 1000);
    assert_eq!(ab.delta, ba.delta);
    assert!(matches!(ab.kind, DeltaKind::Slower));
    assert!(matches!(ba.kind, DeltaKind::Faster));
}

#[test]
fn diff_with_invalid_operand_is_invalid() {
    let a = StageTime { tenths: 0 };
    let b = StageTime { tenths: 600 };
    for (x, y) in [(a, b), (b, a), (a, a)] {
        let d = x.diff_per_mile(&y, 1000);
        assert_eq!(d.delta, 0);
        assert!(matches!(d.kind, DeltaKind::Invalid));
    }
}

#[test]
fn diff_scenario_per_mile() {
    // focal 65.0 s, benchmark 60.0 s, 10.0 miles: 0.5 s/mi, slower
    let focal = parse_stage_time("1:05.0").unwrap();
    let benchmark = parse_stage_time("1:00.0").unwrap();
    assert_eq!(focal.tenths, 650);
    assert_eq!(benchmark.tenths, 600);
    let d = focal.diff_per_mile(&benchmark, 1000);
    assert_eq!(d.delta, 50);
    assert!(matches!(d.kind, DeltaKind::Slower));
    assert_eq!(d.to_string(), "-0.50");
}

#[test]
fn delta_display_signs() {
    let slower = Delta { delta: 50, kind: DeltaKind::Slower };
    let faster = Delta { delta: 50, kind: DeltaKind::Faster };
    let equal = Delta { delta: 0, kind: DeltaKind::Equal };
    let invalid = Delta { delta: 0, kind: DeltaKind::Invalid };
    assert_eq!(slower.to_string(), "-0.50");
    assert_eq!(faster.to_string(), "0.50");
    assert_eq!(equal.to_string(), "0.00");
    assert_eq!(invalid.to_string(), "0.00");
    assert_eq!(Delta { delta: 1234, kind: DeltaKind::Faster }.to_string(), "12.34");
}

#[test]
fn plus_and_minus() {
    let a = StageTime { tenths: 100 };
    let b = StageTime { tenths: 40 };
    assert_eq!(a.plus(b).tenths, 140);
    assert_eq!(a.minus(b).tenths, 60);
}

#[test]
fn zero_is_invalid() {
    let z = StageTime::zero();
    assert_eq!(z.tenths, 0);
    assert!(!z.is_valid());
}
