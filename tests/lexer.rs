use framepick_arg::atom::{DSLKeywords, DSLOp, DSLType};
use framepick_arg::diagnostic::{diagnose, DiagnosticKind};
use framepick_arg::lexer::{
    parse_expr, parse_frame_index, parse_item, parse_keyword, parse_timestamp1, parse_timestamp2,
    parse_timestamp3,
};
use framepick_arg::optimize::optimize_expr;

fn secs(s: u64) -> DSLType {
    DSLType::Timestamp(s * 1000)
}

fn millis(ms: u64) -> DSLType {
    DSLType::Timestamp(ms)
}

fn item(text: &str) -> DSLType {
    let (_, it) = parse_item(text.as_bytes(), 0).unwrap();
    it.unwrap().content
}

#[test]
fn test_keyword_parser() {
    let keywords = vec![
        ("end", DSLKeywords::End),
        ("from", DSLKeywords::From),
        ("to", DSLKeywords::To),
    ];
    for (word, keyword) in keywords {
        let (_, k) = parse_keyword(word.as_bytes(), 0).unwrap();
        assert_eq!(DSLType::Keyword(keyword), k);
    }
    assert!(parse_keyword("hello".as_bytes(), 0).is_none());
}

#[test]
fn test_frame_parser() {
    let (_, val) = parse_frame_index("100f".as_bytes(), 0).unwrap();
    match val {
        DSLType::FrameIndex(v) => assert_eq!(v, 100),
        _ => panic!("Error type"),
    }
    assert!(parse_frame_index("100".as_bytes(), 0).is_none());
    assert!(parse_frame_index("100d".as_bytes(), 0).is_none());
}

#[test]
fn test_timestamp_parser1() {
    let (_, val) = parse_timestamp1("100.0s".as_bytes(), 0).unwrap();
    match val {
        DSLType::Timestamp(v) => assert_eq!(v, 100_000),
        _ => panic!("Error type"),
    }
    let (_, val) = parse_timestamp1("100.11s".as_bytes(), 0).unwrap();
    match val {
        DSLType::Timestamp(v) => assert_eq!(v, 100_110),
        _ => panic!("Error type"),
    }
    assert!(parse_timestamp1("100".as_bytes(), 0).is_none());
    assert!(parse_timestamp1("100d".as_bytes(), 0).is_none());
}

#[test]
fn test_timestamp_parser2() {
    let clock = |text: &str| parse_timestamp2(text.as_bytes(), 0).unwrap().unwrap().1;
    assert_eq!(clock("0:1"), secs(1));
    assert_eq!(clock("1:2"), secs(62));
    assert_eq!(clock("1:2:3"), secs(3723));
    assert_eq!(clock("1:2:3.4"), millis(3723 * 1000 + 400));
    assert_eq!(clock("1.4"), millis(1000 + 400));
    assert!(parse_timestamp2("100".as_bytes(), 0).unwrap().is_none());
    assert!(parse_timestamp2("1:2:3:4".as_bytes(), 0).is_err());
}

#[test]
fn test_timestamp_parser3() {
    let (_, val) = parse_timestamp3("100ms".as_bytes(), 0).unwrap();
    match val {
        DSLType::Timestamp(v) => assert_eq!(v, 100),
        _ => panic!("Error type"),
    }
    let (_, val) = parse_timestamp3("114514ms".as_bytes(), 0).unwrap();
    match val {
        DSLType::Timestamp(v) => assert_eq!(v, 114514),
        _ => panic!("Error type"),
    }
    assert!(parse_timestamp3("100.0ms".as_bytes(), 0).is_none());
    assert!(parse_timestamp3("100d".as_bytes(), 0).is_none());
}

#[test]
fn test_item_parser() {
    let keywords = vec![
        ("end", DSLKeywords::End),
        ("from", DSLKeywords::From),
        ("to", DSLKeywords::To),
    ];
    for (word, keyword) in keywords {
        assert_eq!(DSLType::Keyword(keyword), item(word));
    }
    assert_eq!(item("100f"), DSLType::FrameIndex(100));
    assert_eq!(item("100.0s"), secs(100));
    assert_eq!(item("100.11s"), millis(100_110));
    assert_eq!(item("0:1"), secs(1));
    assert_eq!(item("1:2"), secs(62));
    assert_eq!(item("1:2:3"), secs(3723));
    assert_eq!(item("1:2:3.4"), millis(3723 * 1000 + 400));
    assert_eq!(item("1.4"), millis(1000 + 400));
    assert_eq!(item("100ms"), millis(100));
    assert_eq!(item("114514ms"), millis(114514));

    assert!(parse_item("hello".as_bytes(), 0).is_err());
    assert!(parse_item("100".as_bytes(), 0).is_err());
    assert!(parse_item("100d".as_bytes(), 0).is_err());
    assert!(parse_item("1:2:3:4".as_bytes(), 0).is_err());
}

#[test]
fn test_expr_parser() {
    let expr = parse_expr("end + from - to + 1f - 2s + 3ms - 4:5".as_bytes()).unwrap();
    let items = vec![
        DSLType::Keyword(DSLKeywords::End),
        DSLType::Keyword(DSLKeywords::From),
        DSLType::Keyword(DSLKeywords::To),
        DSLType::FrameIndex(1),
        secs(2),
        millis(3),
        secs(245),
    ];
    assert_eq!(expr.items.len(), items.len());
    for (item, expr_item) in items.iter().zip(expr.items.iter()) {
        assert_eq!(expr_item.content, *item);
    }
    let ops: Vec<DSLOp> = expr.ops.iter().map(|op| op.content).collect();
    assert_eq!(
        ops,
        vec![
            DSLOp::Add,
            DSLOp::Sub,
            DSLOp::Add,
            DSLOp::Sub,
            DSLOp::Add,
            DSLOp::Sub,
        ]
    );
    assert!(parse_expr("++".as_bytes()).is_err());
}

#[test]
fn test_expr_opt() {
    // end + from - to + 1f - 246.997s
    let mut expr = parse_expr("end + from - to + 1f - 2s + 3ms - 4:5".as_bytes()).unwrap();
    optimize_expr(&mut expr);
    let items = vec![
        DSLType::Keyword(DSLKeywords::End),
        DSLType::Keyword(DSLKeywords::From),
        DSLType::Keyword(DSLKeywords::To),
        DSLType::FrameIndex(1),
        millis(247_000 - 3),
    ];
    assert_eq!(expr.items.len(), items.len());
    for (item, expr_item) in items.iter().zip(expr.items.iter()) {
        assert_eq!(expr_item.content, *item);
    }
    let ops: Vec<DSLOp> = expr.ops.iter().map(|op| op.content).collect();
    assert_eq!(
        ops,
        vec![DSLOp::Add, DSLOp::Add, DSLOp::Sub, DSLOp::Add, DSLOp::Sub]
    );
}

#[test]
fn test_show_error() {
    let from = "end - 1d";
    let err = parse_expr(from.as_bytes()).unwrap_err();
    let report = diagnose(from.as_bytes(), &err).unwrap();
    assert_eq!(report.kind, DiagnosticKind::InvalidToken);
    assert_eq!(report.caret_offset, 7);
    assert_eq!(report.caret_length, 1);
    assert_eq!(&from[report.word_start..report.word_end], "d");
    assert_eq!(report.help, None);
}
