use framepick_arg::atom::{DSLKeywords, DSLOp, DSLType};
use framepick_arg::bounds::{build, resolve, BuildError, Role};
use framepick_arg::check::{check_expr, CheckError};
use framepick_arg::diagnostic::{diagnose, pick_keyword, suggest_keyword, DiagnosticKind};
use framepick_arg::error::{ErrorCode, ParseError, ParseErrorKind};
use framepick_arg::lexer::{parse_expr, parse_item, parse_op};
use framepick_arg::optimize::optimize_expr;
use framepick_arg::video::{PaserTimeType, TimeTypeKind, VideoInfo, NO_PTS};

fn contents(text: &str) -> (Vec<DSLType>, Vec<DSLOp>) {
    let mut e = parse_expr(text.as_bytes()).unwrap();
    optimize_expr(&mut e);
    (
        e.items.iter().map(|i| i.content).collect(),
        e.ops.iter().map(|o| o.content).collect(),
    )
}

fn err(offset: usize, length: usize, source: ErrorCode, kind: ParseErrorKind) -> ParseError {
    ParseError { offset, length, source, kind }
}

fn sample_info() -> VideoInfo {
    VideoInfo {
        fps_num: 25,
        fps_den: 1,
        time_base_num: 1,
        time_base_den: 1000,
        start_time: NO_PTS,
        duration: 10000,
    }
}

#[test]
fn clock_times_and_fractions() {
    let one = |t: &str| parse_item(t.as_bytes(), 0).unwrap().1.unwrap();
    assert_eq!(one("0:1").content, DSLType::Timestamp(1000));
    assert_eq!(one("1:2:3.4").content, DSLType::Timestamp(3_723_400));
    assert_eq!(one("1.4").content, DSLType::Timestamp(1400));
    assert_eq!(one("1:2.05").content, DSLType::Timestamp(62_050));
    assert_eq!(one("1:2.005").content, DSLType::Timestamp(62_005));
    assert_eq!(one("1.2345s").content, DSLType::Timestamp(1234));
    let a = one("  12:30");
    assert_eq!((a.offset, a.length), (2, 5));
    assert_eq!(
        parse_item("1:2:3:4".as_bytes(), 0).unwrap_err(),
        err(0, 7, ErrorCode::Count, ParseErrorKind::Nom)
    );
    assert_eq!(
        parse_item("1:2.3456".as_bytes(), 0).unwrap_err(),
        err(0, 8, ErrorCode::Count, ParseErrorKind::Nom)
    );
}

#[test]
fn atoms_round_trip_with_full_length() {
    for (text, value) in [
        ("42f", DSLType::FrameIndex(42)),
        ("7s", DSLType::Timestamp(7000)),
        ("2.5s", DSLType::Timestamp(2500)),
        ("250ms", DSLType::Timestamp(250)),
        ("3:04", DSLType::Timestamp(184_000)),
        ("end", DSLType::Keyword(DSLKeywords::End)),
        ("from", DSLType::Keyword(DSLKeywords::From)),
        ("to", DSLType::Keyword(DSLKeywords::To)),
    ] {
        let (end, it) = parse_item(text.as_bytes(), 0).unwrap();
        let it = it.unwrap();
        assert_eq!(it.content, value);
        assert_eq!(end, text.len());
        assert_eq!((it.offset, it.length), (0, text.len()));
    }
}

#[test]
fn leading_operator_pair_is_escaped() {
    assert_eq!(
        parse_expr("++".as_bytes()).unwrap_err(),
        err(1, 1, ErrorCode::Escaped, ParseErrorKind::Nom)
    );
}

#[test]
fn each_parse_error_kind() {
    assert_eq!(
        parse_expr("1s +".as_bytes()).unwrap_err(),
        err(3, 1, ErrorCode::Escaped, ParseErrorKind::Nom)
    );
    assert_eq!(
        parse_expr("1s 2s".as_bytes()).unwrap_err(),
        err(3, 0, ErrorCode::Tag, ParseErrorKind::Op)
    );
    assert_eq!(
        parse_expr("hello".as_bytes()).unwrap_err(),
        err(0, 0, ErrorCode::Tag, ParseErrorKind::Keywords)
    );
    assert_eq!(
        parse_expr("end - 100d".as_bytes()).unwrap_err(),
        err(6, 3, ErrorCode::Tag, ParseErrorKind::Nom)
    );
    assert_eq!(
        parse_expr("99999999999999999999f".as_bytes()).unwrap_err(),
        err(0, 0, ErrorCode::Digit, ParseErrorKind::Nom)
    );
    assert_eq!(parse_op("  *".as_bytes(), 0).unwrap_err(), err(2, 0, ErrorCode::Tag, ParseErrorKind::Op));
}

#[test]
fn empty_and_signed_expressions() {
    let e = parse_expr("   ".as_bytes()).unwrap();
    assert!(e.items.is_empty() && e.ops.is_empty());
    let e = parse_expr("-1s".as_bytes()).unwrap();
    assert_eq!(e.items[0].content, DSLType::Timestamp(1000));
    assert_eq!(e.ops[0].content, DSLOp::Sub);
    assert_eq!(e.items.len(), e.ops.len());
}

#[test]
fn validation_scenarios() {
    let raw = parse_expr("end - end".as_bytes()).unwrap();
    assert_eq!(check_expr(&raw).unwrap_err(), CheckError::Overflow);
    let raw = parse_expr("1s + 2s - 3s".as_bytes()).unwrap();
    assert!(check_expr(&raw).is_ok());
    let mut signed = parse_expr("-1s".as_bytes()).unwrap();
    optimize_expr(&mut signed);
    assert_eq!(check_expr(&signed).unwrap_err(), CheckError::Overflow);
    assert_eq!(CheckError::Overflow.message(), "Overflow: all is sub");
}

#[test]
fn validation_rejects_each_rule() {
    let checked = |t: &str| {
        let mut e = parse_expr(t.as_bytes()).unwrap();
        optimize_expr(&mut e);
        check_expr(&e)
    };
    assert_eq!(checked("1s - 2s").unwrap_err(), CheckError::Overflow);
    assert_eq!(checked("end + end").unwrap_err(), CheckError::TooManyKeywords);
    assert_eq!(checked("1s - end - end").unwrap_err(), CheckError::TooManyKeywords);
    assert_eq!(checked("from + to").unwrap_err(), CheckError::Circular);
    assert_eq!(checked("from - from + to").unwrap_err(), CheckError::Circular);
    assert!(checked("end - end + 1s").is_ok());
    assert_eq!(checked("").unwrap_err(), CheckError::Overflow);
    assert_eq!(CheckError::TooManyKeywords.message(), "Too many keywords");
    assert_eq!(CheckError::Circular.message(), "circular references");
}

#[test]
fn optimizer_folds_by_kind() {
    let (items, ops) = contents("10f - 3f + 1s - 500ms + end");
    assert_eq!(
        items,
        vec![DSLType::FrameIndex(7), DSLType::Timestamp(500), DSLType::Keyword(DSLKeywords::End)]
    );
    assert_eq!(ops, vec![DSLOp::Add, DSLOp::Add, DSLOp::Add]);
    let (items, ops) = contents("1f - 3f");
    assert_eq!(items, vec![DSLType::FrameIndex(2)]);
    assert_eq!(ops, vec![DSLOp::Sub]);
    let (items, ops) = contents("2f - 2f");
    assert_eq!(items, vec![DSLType::FrameIndex(0)]);
    assert_eq!(ops, vec![DSLOp::Sub]);
    let (items, ops) = contents("18446744073709551615f + 1f");
    assert_eq!(items, vec![DSLType::FrameIndex(u64::MAX)]);
    assert_eq!(ops, vec![DSLOp::Add]);
}

#[test]
fn optimizer_is_idempotent_and_canonical() {
    let mut e = parse_expr("1f + end - 2s + 3f - 4:00 + 5ms".as_bytes()).unwrap();
    optimize_expr(&mut e);
    let once: Vec<(DSLType, DSLOp)> = e.items.iter().zip(e.ops.iter()).map(|(i, o)| (i.content, o.content)).collect();
    assert_eq!(e.items.len(), e.ops.len());
    assert_eq!(e.items.iter().filter(|i| matches!(i.content, DSLType::FrameIndex(_))).count(), 1);
    assert_eq!(e.items.iter().filter(|i| matches!(i.content, DSLType::Timestamp(_))).count(), 1);
    optimize_expr(&mut e);
    let twice: Vec<(DSLType, DSLOp)> = e.items.iter().zip(e.ops.iter()).map(|(i, o)| (i.content, o.content)).collect();
    assert_eq!(once, twice);
    assert_eq!(e.items.len(), e.ops.len());
}

#[test]
fn cross_reference_is_circular() {
    assert_eq!(build("to - 1s", "from + 10s").unwrap_err(), BuildError::Circular);
    assert_eq!(
        build("from + 1s", "end").unwrap_err(),
        BuildError::Check { role: Role::FromBound, reason: CheckError::Circular }
    );
    assert_eq!(
        build("0f", "1s + from + to").unwrap_err(),
        BuildError::Check { role: Role::ToBound, reason: CheckError::Circular }
    );
    assert!(matches!(build("1s +", "end").unwrap_err(), BuildError::Parse { role: Role::FromBound, .. }));
    assert!(build("to - 1s", "end").is_ok());
}

#[test]
fn evaluation_against_a_video() {
    let info = sample_info();
    let pair = build("100f", "end - 1s").unwrap();
    assert_eq!(resolve(&pair, &info, Role::FromBound), 4000);
    assert_eq!(resolve(&pair, &info, Role::ToBound), 9000);
    let pair = build("to - 2s", "end - 1s").unwrap();
    assert_eq!(resolve(&pair, &info, Role::FromBound), 7000);
    let pair = build("0", "from + 500ms");
    assert!(pair.is_err());
    let pair = build("1s", "from + 500ms").unwrap();
    assert_eq!(resolve(&pair, &info, Role::ToBound), 1500);
}

#[test]
fn conversion_formulas() {
    let info = VideoInfo {
        fps_num: 30000,
        fps_den: 1001,
        time_base_num: 1,
        time_base_den: 90000,
        start_time: 1000,
        duration: 5,
    };
    assert_eq!(info.frame_to_timestamp(300), 901_900);
    assert_eq!(info.milliseconds_to_timestamp(1500), 136_000);
    assert_eq!(info.end_to_timestamp(), 5);
    let still = VideoInfo { fps_num: 0, ..info };
    assert_eq!(still.frame_to_timestamp(0), 1000);
    assert_eq!(still.frame_to_timestamp(5), i64::MAX.wrapping_add(1000));
    let plain = sample_info();
    assert_eq!(plain.frame_to_timestamp(1), 40);
    assert_eq!(plain.milliseconds_to_timestamp(1), 1);
}

#[test]
fn single_atom_bounds() {
    let info = sample_info();
    assert_eq!(TimeTypeKind::default(), TimeTypeKind::Millisecond);
    let d = PaserTimeType::default();
    assert_eq!((d.kind, d.value), (TimeTypeKind::Millisecond, 0));
    assert_eq!(PaserTimeType { kind: TimeTypeKind::End, value: 3 }.timestamp(&info), 10000);
    assert_eq!(PaserTimeType { kind: TimeTypeKind::Frame, value: 50 }.timestamp(&info), 2000);
    assert_eq!(PaserTimeType { kind: TimeTypeKind::Millisecond, value: 250 }.timestamp(&info), 250);
}

#[test]
fn keyword_suggestions() {
    assert_eq!(suggest_keyword(b"ned"), Some(DSLKeywords::End));
    assert_eq!(suggest_keyword(b"fro"), Some(DSLKeywords::From));
    assert_eq!(suggest_keyword(b"tp"), Some(DSLKeywords::To));
    assert_eq!(suggest_keyword(b"xyzzy"), None);
    assert_eq!(pick_keyword(b"q", 3, 3, 3), None);
    assert_eq!(pick_keyword(b"e", 3, 3, 3), Some(DSLKeywords::End));
    assert_eq!(pick_keyword(b"q", 2, 2, 5), None);
}

#[test]
fn diagnostics_for_each_error() {
    let report = |t: &str| {
        let e = parse_expr(t.as_bytes()).unwrap_err();
        diagnose(t.as_bytes(), &e)
    };
    let r = report("end - tp").unwrap();
    assert_eq!(r.kind, DiagnosticKind::UnknownKeyword);
    assert_eq!((r.caret_offset, r.caret_length), (6, 2));
    assert_eq!(r.help, Some(DSLKeywords::To));
    let r = report("1:2:3:4").unwrap();
    assert_eq!(r.kind, DiagnosticKind::TooManyFields);
    assert_eq!((r.caret_offset, r.caret_length), (0, 7));
    let r = report("1s 2s").unwrap();
    assert_eq!(r.kind, DiagnosticKind::MissingOperator);
    assert_eq!((r.caret_offset, r.caret_length), (3, 1));
    let r = report("1s -").unwrap();
    assert_eq!(r.kind, DiagnosticKind::EscapedOperator);
    assert_eq!((r.caret_offset, r.caret_length), (3, 1));
    assert!(report("99999999999999999999f").is_none());
}
