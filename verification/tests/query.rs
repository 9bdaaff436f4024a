use infralens::columnar::batch::Batch;
use infralens::columnar::column::{Cells, Column};
use infralens::common::config::InfraLensConfig;
use infralens::common::model::{AnyValue, InstrumentationScope, LogRecord, MetricPoint, MetricType};
use infralens::common::schema::{DataType, Field, Schema};
use infralens::query::ast::{BinOp, Expr, JoinKind, Literal, OrderByItem, Projection, SelectStatement, Statement};
use infralens::query::catalog::Catalog;
use infralens::query::engine::{execute, prepare};
use infralens::query::error::{LexError, ParseError, QueryError};
use infralens::query::executor::aggregate::GroupState;
use infralens::query::executor::scan::scan_paths;
use infralens::query::executor::sort::sort_batch;
use infralens::query::executor::tree::scan_to_load;
use infralens::query::functions::eval::{eval_expr, eval_filter};
use infralens::query::functions::like::Matcher;
use infralens::query::functions::temporal::{delta, histogram_quantile, rate, time_bucket};
use infralens::query::interval::parse_interval;
use infralens::query::lexer::{Lexer, Token};
use infralens::query::optimizer::cost::{choose_join_strategy, estimated_rows};
use infralens::query::optimizer::rules::{extract_time_range, fold_expr};
use infralens::query::parser::Parser;
use infralens::query::planner::{JoinStrategy, LogicalPlan};
use infralens::storage::engine::StorageEngine;
use infralens::storage::partition::{Partition, PartitionKey};
use infralens::storage::sstable::{build_log_batch, build_metric_batch};
use infralens::storage::zone_map::ZoneMap;

// ── Lexer ───────────────────────────────────────────────────────────────────

fn tokens(src: &str) -> Vec<Token> {
    Lexer::new(src).tokenise().unwrap()
}

#[test]
fn tokens_of_a_select() {
    assert_eq!(
        tokens("SELECT foo, bar FROM logs WHERE x = 1"),
        vec![
            Token::Select,
            Token::Ident("foo".to_string()),
            Token::Comma,
            Token::Ident("bar".to_string()),
            Token::From,
            Token::Ident("logs".to_string()),
            Token::Where,
            Token::Ident("x".to_string()),
            Token::Eq,
            Token::IntLit(1),
            Token::Eof,
        ]
    );
}

#[test]
fn tokenise_operators() {
    let mut l = Lexer::new("<= >= != <> =");
    let tokens = l.tokenise().unwrap();
    assert_eq!(tokens[0], Token::LtEq);
    assert_eq!(tokens[1], Token::GtEq);
    assert_eq!(tokens[2], Token::NotEq);
    assert_eq!(tokens[3], Token::NotEq);
    assert_eq!(tokens[4], Token::Eq);
}

#[test]
fn tokenise_string_with_escape() {
    let mut l = Lexer::new("'it''s'");
    let tokens = l.tokenise().unwrap();
    assert!(matches!(&tokens[0], Token::StrLit(s) if s == "it's"));
}

#[test]
fn tokens_of_literals() {
    assert_eq!(
        tokens("1.25 7 'a' \"Odd Name\" sElEcT -- rest\n;"),
        vec![
            Token::FloatLit(1.25f64.to_bits()),
            Token::IntLit(7),
            Token::StrLit("a".to_string()),
            Token::Ident("Odd Name".to_string()),
            Token::Select,
            Token::Semicolon,
            Token::Eof,
        ]
    );
    assert_eq!(tokens("0.1")[0], Token::FloatLit(0.1f64.to_bits()));
    assert_eq!(tokens("1.x")[..2], [Token::IntLit(1), Token::Dot]);
    assert_eq!(tokens("'\u{e9}'")[0], Token::StrLit("\u{c3}\u{a9}".to_string()));
    assert_eq!(tokens(""), vec![Token::Eof]);
}

#[test]
fn texts_without_tokens() {
    let lex = |s: &str| match Lexer::new(s).tokenise().unwrap_err() {
        QueryError::Lex(e) => e,
        _ => panic!("expected a lexer error"),
    };
    assert!(matches!(lex("a ! b"), LexError::LoneBang(3)));
    assert!(matches!(lex("a # b"), LexError::UnexpectedByte(b'#')));
    assert!(matches!(lex("9223372036854775808"), LexError::BadNumber(_)));
    assert!(matches!(lex("'abc"), LexError::UnterminatedString));
    assert!(matches!(lex("\"abc"), LexError::UnterminatedIdent));
}

// ── Parser ──────────────────────────────────────────────────────────────────

fn parse(sql: &str) -> SelectStatement {
    let Statement::Select(s) = Parser::new(tokens(sql)).parse_statement().unwrap();
    s
}

#[test]
fn parse_simple_select() {
    let s = parse("SELECT ts, body FROM logs WHERE severity_number >= 9");
    assert_eq!(s.projections.len(), 2);
    assert!(s.filter.is_some());
}

#[test]
fn parse_function_call() {
    let s = parse("SELECT count(*) AS cnt FROM logs");
    match &s.projections[0] {
        Projection::Expr { expr: Expr::Function { name, .. }, alias } => {
            assert_eq!(name, "count");
            assert_eq!(alias.as_deref(), Some("cnt"));
        }
        _ => panic!("expected function projection"),
    }
}

#[test]
fn parse_between() {
    let s = parse("SELECT * FROM traces WHERE duration_ns BETWEEN 1000 AND 9999");
    assert!(matches!(s.filter, Some(Expr::Between { .. })));
}

#[test]
fn parse_join() {
    let s = parse("SELECT l.body, t.name FROM logs l JOIN traces t ON l.trace_id = t.trace_id");
    assert_eq!(s.joins.len(), 1);
    assert_eq!(s.joins[0].kind, JoinKind::Inner);
}

#[test]
fn parse_interval_units() {
    assert_eq!(parse_interval("5 minutes").unwrap(), 5 * 60 * 1_000_000_000);
    assert_eq!(parse_interval("1h").unwrap(), 3_600 * 1_000_000_000);
    assert_eq!(parse_interval("30s").unwrap(), 30 * 1_000_000_000);
}

#[test]
fn parse_group_by_order_by_limit() {
    let s = parse(
        "SELECT time_bucket('1m', ts) AS m, count(*) FROM logs \
         GROUP BY m ORDER BY m DESC LIMIT 100",
    );
    assert_eq!(s.group_by.len(), 1);
    assert_eq!(s.order_by.len(), 1);
    assert!(!s.order_by[0].asc);
    assert_eq!(s.limit, Some(100));
}

#[test]
fn operators_bind_by_precedence() {
    let s = parse("SELECT a FROM logs WHERE a = 1 + 2 * 3 AND NOT b = 2 OR c IS NOT NULL");
    match s.filter.unwrap() {
        Expr::BinOp { op: BinOp::Or, left, right } => {
            assert!(matches!(*right, Expr::IsNotNull(_)));
            match *left {
                Expr::BinOp { op: BinOp::And, left, right } => {
                    assert!(matches!(*right, Expr::UnaryOp { .. }));
                    match *left {
                        Expr::BinOp { op: BinOp::Eq, right, .. } => {
                            assert!(matches!(*right, Expr::BinOp { op: BinOp::Add, .. }))
                        }
                        _ => panic!("equality"),
                    }
                }
                _ => panic!("conjunction"),
            }
        }
        _ => panic!("disjunction"),
    }
}

#[test]
fn statements_that_do_not_parse() {
    let fail = |s: &str| match Parser::new(tokens(s)).parse_statement() {
        Err(QueryError::Parse(e)) => e,
        _ => panic!("expected a parser error"),
    };
    assert!(matches!(fail("UPDATE logs"), ParseError::ExpectedSelect(_)));
    assert!(matches!(
        fail("SELECT a FROM logs extra junk"),
        ParseError::Expected { want: Token::Eof, .. }
    ));
    assert!(matches!(fail("SELECT a FROM 1"), ParseError::ExpectedIdent(Token::IntLit(1))));
    assert!(matches!(fail("SELECT a FROM logs LIMIT x"), ParseError::ExpectedInt(_)));
    assert!(matches!(fail("SELECT a FROM logs WHERE a LIKE 1"), ParseError::ExpectedString(_)));
    assert!(matches!(fail("SELECT a FROM logs WHERE a NOT 1"), ParseError::ExpectedInOrLike));
    assert!(matches!(fail("SELECT ) FROM logs"), ParseError::Unexpected(Token::RParen)));
    assert!(matches!(fail("SELECT a FROM logs WHERE a = INTERVAL 'x'"), ParseError::IntervalNumber(_)));
    assert!(matches!(
        fail("SELECT a FROM logs WHERE a = INTERVAL '3 parsecs'"),
        ParseError::IntervalUnit(u) if u == "parsecs"
    ));
}

#[test]
fn interval_edges() {
    assert_eq!(parse_interval("250ms").unwrap(), 250_000_000);
    assert_eq!(parse_interval("7us").unwrap(), 7_000);
    assert_eq!(parse_interval("2 days").unwrap(), 2 * 86_400 * 1_000_000_000);
    assert_eq!(parse_interval("-1h").unwrap(), -3_600_000_000_000);
    assert!(matches!(
        parse_interval("9223372036854775807h"),
        Err(QueryError::Abort(_))
    ));
    assert!(matches!(parse_interval(""), Err(QueryError::Parse(_))));
}

// ── Catalog ─────────────────────────────────────────────────────────────────

#[test]
fn catalog_resolves_builtin_tables() {
    let cat = Catalog::new();
    let logs = cat.get_table("logs").unwrap();
    assert!(!logs.columns.is_empty());
    assert!(logs.column("timestamp_ns").is_some());
}

#[test]
fn catalog_rejects_unknown_table() {
    let cat = Catalog::new();
    assert!(cat.get_table("nonexistent").is_err());
}

fn zone(min: u64, max: u64, rows: u64) -> ZoneMap {
    ZoneMap {
        min_timestamp_ns: min,
        max_timestamp_ns: max,
        row_count: rows,
        columns: Vec::new(),
    }
}

#[test]
fn catalog_partition_pruning() {
    let mut cat = Catalog::new();
    cat.update_stats("logs", vec![(1, zone(100, 200, 10)), (2, zone(300, 400, 5))]);
    let hit = cat.overlapping_partitions("logs", 150, 350);
    assert_eq!(hit.len(), 2);
    let miss = cat.overlapping_partitions("logs", 500, 600);
    assert_eq!(miss.len(), 0);
}

#[test]
fn statistics_belong_to_one_table() {
    let mut cat = Catalog::new();
    cat.update_stats("logs", vec![(1, zone(100, 200, 10)), (2, zone(300, 400, 5))]);
    cat.update_stats("nope", vec![(3, zone(1, 2, 3))]);
    assert_eq!(estimated_rows(&cat.get_table("logs").unwrap()), 15);
    assert_eq!(estimated_rows(&cat.get_table("traces").unwrap()), 0);
    assert_eq!(cat.overlapping_partitions("logs", 400, 400), vec![2]);
    assert!(cat.overlapping_partitions("nope", 0, 9).is_empty());
}

#[test]
fn join_strategies() {
    assert_eq!(choose_join_strategy(10_000, u64::MAX), JoinStrategy::NestedLoop);
    assert_eq!(choose_join_strategy(10_001, 1_000_000), JoinStrategy::Hash);
    assert_eq!(choose_join_strategy(10_001, 1_000_001), JoinStrategy::SortMerge);
}

// ── Optimizer ───────────────────────────────────────────────────────────────

fn column(name: &str) -> Expr {
    Expr::Column { table: None, name: name.to_string() }
}

fn whole(n: i64) -> Expr {
    Expr::Literal(Literal::Int(n))
}

fn binary(op: BinOp, left: Expr, right: Expr) -> Expr {
    Expr::BinOp { op, left: Box::new(left), right: Box::new(right) }
}

fn where_of(sql: &str) -> Expr {
    parse(sql).filter.unwrap()
}

#[test]
fn constants_are_folded() {
    let e = where_of("SELECT a FROM logs WHERE now() - INTERVAL '1s' * 2");
    assert!(matches!(
        fold_expr(e, 5_000_000_000),
        Expr::Literal(Literal::Int(3_000_000_000))
    ));
    assert!(matches!(fold_expr(binary(BinOp::Mod, whole(7), whole(3)), 0), Expr::Literal(Literal::Int(1))));
    assert!(matches!(fold_expr(binary(BinOp::Div, whole(7), whole(0)), 0), Expr::BinOp { .. }));
    assert!(matches!(
        fold_expr(binary(BinOp::Add, whole(i64::MAX), whole(1)), 0),
        Expr::BinOp { .. }
    ));
    assert!(matches!(fold_expr(binary(BinOp::Add, whole(1), column("a")), 0), Expr::BinOp { .. }));
}

#[test]
fn time_ranges() {
    let range = |sql: &str| extract_time_range(&where_of(sql));
    assert_eq!(range("SELECT a FROM logs WHERE timestamp_ns >= 5"), Some((5, u64::MAX)));
    assert_eq!(range("SELECT a FROM logs WHERE timestamp_ns <= 5"), Some((0, 5)));
    assert_eq!(
        range("SELECT a FROM logs WHERE timestamp_ns >= 5 AND timestamp_ns <= 9"),
        Some((5, 9))
    );
    assert_eq!(range("SELECT a FROM logs WHERE timestamp_ns BETWEEN 3 AND 4"), Some((3, 4)));
    assert_eq!(range("SELECT a FROM logs WHERE body = 'x' AND timestamp_ns <= 9"), Some((0, 9)));
    assert_eq!(range("SELECT a FROM logs WHERE timestamp_ns > 5"), None);
}

#[test]
fn plans_push_filters_and_prune() {
    let mut cat = Catalog::new();
    cat.update_stats("logs", vec![(1, zone(100, 200, 10)), (2, zone(300, 400, 5))]);
    let plan = prepare(
        "SELECT body FROM logs WHERE timestamp_ns >= 250 AND timestamp_ns <= 300 + 20 LIMIT 3",
        &cat,
        0,
    )
    .unwrap();
    assert_eq!(plan.batch_size, 8192);
    assert_eq!(plan.join_strategy, None);
    let scan = scan_to_load(&plan.logical).unwrap();
    assert_eq!(scan.table, "logs");
    assert_eq!(scan.partition_filter, Some(vec![2]));
    assert_eq!(scan.limit, Some(3));
    assert_eq!(scan.projection, Some(vec!["body".to_string()]));
    assert!(scan.predicate.is_some());
    assert!(matches!(plan.logical, LogicalPlan::Limit { n: 3, offset: 0, .. }));
}

fn pruned(sql: &str, cat: &Catalog) -> Option<Vec<u64>> {
    let plan = prepare(sql, cat, 0).unwrap();
    scan_to_load(&plan.logical).unwrap().partition_filter.clone()
}

#[test]
fn pruning_tells_none_from_all() {
    let mut cat = Catalog::new();
    let asks = "SELECT body FROM logs WHERE timestamp_ns BETWEEN 500 AND 600";
    assert_eq!(pruned(asks, &cat), None);
    cat.update_stats("logs", vec![(1, zone(100, 200, 10))]);
    assert_eq!(pruned(asks, &cat), Some(vec![]));
    assert_eq!(pruned("SELECT body FROM logs", &cat), None);
    assert_eq!(
        pruned("SELECT body FROM logs WHERE timestamp_ns >= 0 - 5", &cat),
        Some(vec![1])
    );
    assert_eq!(pruned("SELECT body FROM logs WHERE timestamp_ns <= 0 - 5", &cat), Some(vec![]));
}

#[test]
fn pruned_scans_read_no_other_files() {
    let mut engine = StorageEngine::open(&InfraLensConfig::default().storage);
    let key = PartitionKey(0);
    engine.add_partition(Partition::open("d", key, Vec::new(), Vec::new(), Vec::new()), 0);
    let table = engine.flush_logs(key, &vec![log(150, "INFO", "a")], 64, 1);
    engine.add_sstable(key, table.meta);
    let mut cat = Catalog::new();
    cat.update_stats("logs", vec![(0, zone(100, 200, 10))]);
    let files = |sql: &str| {
        let plan = prepare(sql, &cat, 0).unwrap();
        scan_paths(scan_to_load(&plan.logical).unwrap(), &engine).unwrap()
    };
    let own = vec!["d/partitions/1970010100/logs/000001.parquet".to_string()];
    assert_eq!(files("SELECT body FROM logs"), own);
    assert_eq!(files("SELECT body FROM logs WHERE timestamp_ns <= 150"), own);
    assert!(files("SELECT body FROM logs WHERE timestamp_ns >= 201").is_empty());
}

#[test]
fn a_filter_above_a_filter_keeps_both() {
    let plan = prepare(
        "SELECT * FROM logs WHERE severity_text = 'INFO' HAVING timestamp_ns = timestamp_ns AND body = '\"c\"'",
        &Catalog::new(),
        0,
    )
    .unwrap();
    assert!(matches!(&plan.logical, LogicalPlan::Filter { .. }));
    assert!(scan_to_load(&plan.logical).unwrap().predicate.is_some());
    let out = execute(plan, logs().into_iter().map(Ok).collect(), 0).unwrap();
    assert_eq!(times(&out), vec![3]);
}

#[test]
fn joins_are_planned_but_not_executed() {
    let cat = Catalog::new();
    let plan =
        prepare("SELECT * FROM logs l JOIN traces t ON l.trace_id = t.trace_id", &cat, 0).unwrap();
    assert_eq!(plan.join_strategy, Some(JoinStrategy::NestedLoop));
    assert!(scan_to_load(&plan.logical).is_none());
    match execute(plan, Vec::new(), 0) {
        Err(QueryError::Execution(m)) => assert_eq!(
            m,
            "cross-table JOIN requires distributed executor (Phase 3 local scope: single-table)"
        ),
        _ => panic!("expected an error"),
    }
}

#[test]
fn unknown_tables_fail_when_run() {
    let plan = prepare("SELECT * FROM nope", &Catalog::new(), 0).unwrap();
    match execute(plan, Vec::new(), 0) {
        Err(QueryError::Bind(m)) => assert_eq!(m, "unknown table 'nope'"),
        _ => panic!("expected an error"),
    }
}

// ── Functions ───────────────────────────────────────────────────────────────

fn cells<T>(values: Vec<T>) -> Cells<T> {
    let valid = vec![true; values.len()];
    Cells { values, valid }
}

fn uints(v: Vec<u64>) -> Column {
    Column::UInt64(cells(v))
}

fn floats(v: Vec<f64>) -> Column {
    Column::Float64(cells(v.into_iter().map(f64::to_bits).collect()))
}

fn float_at(c: &Column, i: usize) -> f64 {
    match c {
        Column::Float64(c) => f64::from_bits(c.values[i]),
        _ => panic!("not a column of floats"),
    }
}

#[test]
fn test_time_bucket() {
    let ts = uints(vec![0u64, 60_000_000_000, 90_000_000_000, 120_000_000_000]);
    match time_bucket(60_000_000_000, &ts).unwrap() {
        Column::UInt64(b) => {
            assert_eq!(b.values[0], 0);
            assert_eq!(b.values[1], 60_000_000_000);
            assert_eq!(b.values[2], 60_000_000_000);
            assert_eq!(b.values[3], 120_000_000_000);
        }
        _ => panic!("not a column of unsigned numbers"),
    }
}

#[test]
fn test_histogram_quantile() {
    let vals = floats(vec![1.0, 2.0, 3.0, 4.0, 5.0]);
    let p50 = histogram_quantile(0.5f64.to_bits(), &vals, 50).unwrap();
    assert!((float_at(&p50, 0) - 3.0).abs() < 1e-9);
}

#[test]
fn temporal_edges() {
    assert!(time_bucket(0, &uints(vec![1])).is_err());
    assert!(time_bucket(1, &floats(vec![1.0])).is_err());
    let r = rate(&uints(vec![1, 2, 3]), 2_000_000_000).unwrap();
    assert_eq!(float_at(&r, 2), 1.5);
    assert!(rate(&uints(vec![1]), 0).is_err());
    let d = delta(&uints(vec![10, 3, 4]), 0).unwrap();
    assert_eq!(float_at(&d, 1), -6.0);
    assert_eq!(float_at(&delta(&floats(vec![]), 0).unwrap(), 0), 0.0);
    let q = histogram_quantile(1.0f64.to_bits(), &uints(vec![9, 2, 5]), 50).unwrap();
    assert_eq!(float_at(&q, 2), 9.0);
    assert!(histogram_quantile(1.5f64.to_bits(), &floats(vec![1.0]), 50).is_err());
    assert!(histogram_quantile(f64::NAN.to_bits(), &floats(vec![1.0]), 50).is_err());
    assert!(matches!(
        histogram_quantile(0.5f64.to_bits(), &floats(vec![1.0, f64::NAN]), 50),
        Err(QueryError::Abort(_))
    ));
}

#[test]
fn like_patterns() {
    let like = |p: &str, s: &str| Matcher::new(p).matches(s);
    assert!(like("abc", "abc"));
    assert!(!like("abc", "abcd"));
    assert!(like("ab%", "abcd"));
    assert!(!like("ab%", "xab"));
    assert!(like("%cd", "abcd"));
    assert!(like("a%c%", "abcd"));
    assert!(!like("a%x%", "abcd"));
    assert!(like("%", ""));
    assert!(like("a%b%", "a1b2"));
    assert!(like("a%b%", "ab"));
    assert!(!like("a%b%", "ba"));
    assert!(like("%x%y%", "--x--y--"));
    assert!(!like("%ab", "abcab"));
}

fn field(name: &str, data_type: DataType) -> Field {
    Field { name: name.to_string(), data_type, nullable: true }
}

fn sample() -> Batch {
    let schema = Schema {
        fields: vec![
            field("u", DataType::UInt64),
            field("i", DataType::Int64),
            field("f", DataType::Float64),
            field("s", DataType::Utf8),
        ],
    };
    let mut texts = cells(vec!["x".to_string(), "yy".to_string(), String::new()]);
    texts.valid[2] = false;
    Batch::try_new(
        schema,
        vec![
            uints(vec![1, 2, 3]),
            Column::Int64(cells(vec![10, -20, 30])),
            floats(vec![0.5, 1.5, -1.0]),
            Column::Utf8(texts),
        ],
    )
    .unwrap()
}

fn mask(condition: &str) -> Vec<Option<bool>> {
    let e = where_of(&format!("SELECT a FROM logs WHERE {condition}"));
    let m = eval_filter(&sample(), &e, 0).unwrap();
    m.values.iter().zip(m.valid.iter()).map(|(v, ok)| if *ok { Some(*v) } else { None }).collect()
}

#[test]
fn conditions() {
    let (t, f) = (Some(true), Some(false));
    assert_eq!(mask("i > 0"), vec![t, f, t]);
    assert_eq!(mask("i + 10 = 20"), vec![t, f, f]);
    assert_eq!(mask("f * 2.0 <= 1.0"), vec![t, f, t]);
    assert_eq!(mask("s = 'x'"), vec![t, f, None]);
    assert_eq!(mask("s != 'x'"), vec![f, t, None]);
    assert_eq!(mask("s IS NULL"), vec![f, f, t]);
    assert_eq!(mask("s IS NOT NULL AND i < 0"), vec![f, t, f]);
    assert_eq!(mask("NOT i > 0 OR f = 0.5"), vec![t, t, f]);
    assert_eq!(mask("i BETWEEN -20 AND 10"), vec![t, t, f]);
    assert_eq!(mask("i IN (10, 30)"), vec![t, f, t]);
    assert_eq!(mask("i NOT IN (10, 30)"), vec![f, t, f]);
    assert_eq!(mask("s LIKE 'y%'"), vec![f, t, f]);
    assert_eq!(mask("s NOT LIKE 'y%'"), vec![t, f, t]);
    assert_eq!(mask("TRUE"), vec![t, t, t]);
    assert_eq!(mask("i / 3 = 10"), vec![f, f, t]);
    assert_eq!(mask("-i = 20"), vec![f, t, f]);
    assert_eq!(mask("now() = 0"), vec![t, t, t]);
}

#[test]
fn conditions_that_fail() {
    let fail = |condition: &str| {
        let e = where_of(&format!("SELECT a FROM logs WHERE {condition}"));
        eval_filter(&sample(), &e, 0).unwrap_err()
    };
    let execution = |condition: &str, text: &str| match fail(condition) {
        QueryError::Execution(m) => assert_eq!(m, text),
        other => panic!("unexpected {other:?}"),
    };
    execution("i", "filter expression must be boolean");
    execution("zzz = 1", "column 'zzz' not found");
    execution("u = 1", "unsupported comparison between UInt64 and Int64");
    execution("i % 2 = 0", "unsupported arithmetic types");
    execution("-s = 1", "unary minus on non-numeric type");
    execution("NOT i", "NOT requires boolean");
    execution("i AND TRUE", "AND: left not boolean");
    execution("TRUE OR i", "OR: right not boolean");
    execution("i LIKE 'x'", "LIKE requires text column");
    execution("foo(1)", "unknown function 'foo'");
    assert!(matches!(fail("i / 0 = 1"), QueryError::Arrow(m) if m == "Divide by zero error"));
    assert!(matches!(fail("i + 9223372036854775807 = 1"), QueryError::Arrow(_)));
}

#[test]
fn function_calls() {
    let value = |text: &str| {
        let e = where_of(&format!("SELECT a FROM logs WHERE {text}"));
        eval_expr(&sample(), &e, 77).unwrap()
    };
    assert!(matches!(value("time_bucket(2, u)"), Column::UInt64(c) if c.values == vec![0, 2, 2]));
    assert_eq!(float_at(&value("rate(u, 1000000000)"), 0), 3.0);
    assert_eq!(float_at(&value("delta(f, 1)"), 0), -1.5);
    assert_eq!(float_at(&value("histogram_quantile(0.5, f)"), 0), 0.5);
    assert!(matches!(value("now()"), Column::Int64(c) if c.values == vec![77, 77, 77]));
}

#[test]
fn sorting() {
    let by = |name: &str, asc: bool| vec![OrderByItem { expr: column(name), asc }];
    let order = |b: Batch| match &b.columns[0] {
        Column::UInt64(c) => c.values.clone(),
        _ => panic!("not a column of unsigned numbers"),
    };
    assert_eq!(order(sort_batch(sample(), &by("f", true))), vec![3, 1, 2]);
    assert_eq!(order(sort_batch(sample(), &by("i", false))), vec![3, 1, 2]);
    assert_eq!(order(sort_batch(sample(), &by("s", false))), vec![2, 1, 3]);
    assert_eq!(order(sort_batch(sample(), &by("zzz", false))), vec![1, 2, 3]);
}

#[test]
fn group_state() {
    let mut g = GroupState::default();
    for x in [2.0f64, -1.0, 5.0] {
        g.accumulate("sum", Some(x.to_bits()));
        g.accumulate("min", Some(x.to_bits()));
        g.accumulate("max", Some(x.to_bits()));
        g.accumulate("sum", None);
        g.count += 1;
    }
    let get = |f: &str| f64::from_bits(g.finalize(f));
    assert_eq!(get("sum"), 6.0);
    assert_eq!(get("avg"), 2.0);
    assert_eq!(get("min"), -1.0);
    assert_eq!(get("max"), 5.0);
    assert_eq!(get("count"), 3.0);
    assert_eq!(get("other"), 0.0);
}

// ── Whole queries ───────────────────────────────────────────────────────────

fn log(ts: u64, severity: &str, body: &str) -> LogRecord {
    LogRecord {
        timestamp_ns: ts,
        observed_timestamp_ns: ts,
        trace_id: None,
        span_id: None,
        severity_number: 9,
        severity_text: severity.to_string(),
        body: Some(AnyValue::String(body.to_string())),
        attributes: Vec::new(),
        resource_attributes: Vec::new(),
        scope: InstrumentationScope::default(),
        schema_url: String::new(),
    }
}

fn point(ts: u64, name: &str, value: f64) -> MetricPoint {
    MetricPoint {
        timestamp_ns: ts,
        start_timestamp_ns: ts,
        name: name.to_string(),
        description: String::new(),
        unit: String::new(),
        metric_type: MetricType::Gauge,
        value_double: Some(value.to_bits()),
        value_int: Some(ts as i64),
        histogram: None,
        attributes: Vec::new(),
        resource_attributes: Vec::new(),
        scope: InstrumentationScope::default(),
        schema_url: String::new(),
    }
}

fn run_on(sql: &str, batches: Vec<Batch>) -> Result<Vec<Batch>, QueryError> {
    let plan = prepare(sql, &Catalog::new(), 0)?;
    execute(plan, batches.into_iter().map(Ok).collect(), 0)
}

fn times(batches: &Vec<Batch>) -> Vec<u64> {
    let mut out = Vec::new();
    for b in batches {
        match &b.columns[0] {
            Column::UInt64(c) => out.extend(c.values.iter().copied()),
            _ => panic!("not a column of unsigned numbers"),
        }
    }
    out
}

fn logs() -> Vec<Batch> {
    vec![
        build_log_batch(&vec![log(1, "INFO", "a"), log(2, "WARN", "b")]),
        build_log_batch(&vec![log(3, "INFO", "c"), log(4, "ERROR", "d")]),
    ]
}

fn metrics() -> Vec<Batch> {
    vec![build_metric_batch(&vec![
        point(1, "cpu", 0.5),
        point(2, "mem", 2.0),
        point(1, "cpu", 1.5),
    ])]
}

#[test]
fn filtered_logs() {
    let out = run_on("SELECT * FROM logs WHERE severity_text = 'INFO'", logs()).unwrap();
    assert_eq!(times(&out), vec![1, 3]);
    let none = run_on("SELECT * FROM logs WHERE severity_text = 'TRACE'", logs()).unwrap();
    assert!(none.is_empty());
    let limited =
        run_on("SELECT * FROM logs WHERE severity_text != 'WARN' LIMIT 2 OFFSET 1", logs());
    assert_eq!(times(&limited.unwrap()), vec![3, 4]);
    let sorted = run_on("SELECT * FROM logs ORDER BY severity_text, timestamp_ns DESC", logs());
    assert_eq!(times(&sorted.unwrap()), vec![4, 3, 1, 2]);
}

#[test]
fn batches_that_could_not_be_read() {
    let plan = prepare("SELECT * FROM logs", &Catalog::new(), 0).unwrap();
    match execute(plan, vec![Err("bad page".to_string())], 0) {
        Err(QueryError::Execution(m)) => assert_eq!(m, "bad page"),
        _ => panic!("expected an error"),
    }
}

#[test]
fn totals() {
    let out = run_on(
        "SELECT count(*) AS n, sum(value_double), avg(value_double), min(value_double), max(value_double) FROM metrics",
        metrics(),
    )
    .unwrap();
    assert_eq!(out.len(), 1);
    assert!(matches!(&out[0].columns[0], Column::Int64(c) if c.values == vec![3]));
    assert_eq!(float_at(&out[0].columns[1], 0), 4.0);
    assert_eq!(float_at(&out[0].columns[2], 0), 4.0 / 3.0);
    assert_eq!(float_at(&out[0].columns[3], 0), 0.5);
    assert_eq!(float_at(&out[0].columns[4], 0), 2.0);
    assert_eq!(out[0].schema.fields[0].name, "n");
    let none = run_on("SELECT count(*) FROM metrics", Vec::new()).unwrap();
    assert_eq!(none[0].rows, 0);
}

#[test]
fn groups() {
    let out = run_on(
        "SELECT count(*), sum(value_double) FROM metrics GROUP BY timestamp_ns",
        metrics(),
    )
    .unwrap();
    assert_eq!(out.len(), 1);
    match &out[0].columns[0] {
        Column::Utf8(c) => assert_eq!(c.values, vec!["1".to_string(), "2".to_string()]),
        _ => panic!("keys"),
    }
    assert!(matches!(&out[0].columns[1], Column::Int64(c) if c.values == vec![2, 1]));
    assert_eq!(float_at(&out[0].columns[2], 0), 2.0);
    assert_eq!(float_at(&out[0].columns[2], 1), 2.0);
}

#[test]
fn groups_of_nothing() {
    let sql = "SELECT count(*) AS n, sum(value_double) AS s FROM metrics GROUP BY name";
    let out = run_on(sql, Vec::new()).unwrap();
    assert_eq!(out.len(), 1);
    assert_eq!(out[0].rows, 0);
    let fields = &out[0].schema.fields;
    assert_eq!((fields[0].name.as_str(), fields[0].nullable), ("name", true));
    assert!(matches!(fields[0].data_type, DataType::Int64));
    assert_eq!((fields[1].name.as_str(), fields[1].nullable), ("n", false));
    assert!(matches!(fields[1].data_type, DataType::Int64));
    assert!(matches!(fields[2].data_type, DataType::Float64));
}

#[test]
fn groups_can_be_filtered_by_count() {
    let sql = "SELECT count(*) AS n FROM metrics GROUP BY timestamp_ns HAVING n >= 2";
    let out = run_on(sql, metrics()).unwrap();
    assert_eq!(out[0].rows, 1);
}

#[test]
fn limits_come_last() {
    let sorted = run_on("SELECT * FROM logs ORDER BY timestamp_ns DESC LIMIT 1", logs());
    assert_eq!(times(&sorted.unwrap()), vec![4]);
    let behind = run_on("SELECT * FROM logs LIMIT 2 OFFSET 2", logs());
    assert_eq!(times(&behind.unwrap()), vec![3, 4]);
    let counted = run_on("SELECT count(*) FROM logs LIMIT 1", logs()).unwrap();
    assert!(matches!(&counted[0].columns[0], Column::Int64(c) if c.values == vec![4]));
    let first = run_on("SELECT * FROM logs WHERE severity_text != 'WARN' LIMIT 2", logs());
    assert_eq!(times(&first.unwrap()), vec![1, 3]);
    let limit_of = |sql: &str| {
        let plan = prepare(sql, &Catalog::new(), 0).unwrap();
        scan_to_load(&plan.logical).unwrap().limit
    };
    assert_eq!(limit_of("SELECT * FROM logs LIMIT 2"), Some(2));
    assert_eq!(limit_of("SELECT * FROM logs LIMIT 2 OFFSET 2"), None);
    assert_eq!(limit_of("SELECT * FROM logs ORDER BY body LIMIT 2"), None);
    assert_eq!(limit_of("SELECT count(*) FROM logs LIMIT 2"), None);
}

#[test]
fn pushed_filters_give_the_same_rows() {
    // A filter below a sort is pushed into the scan; one above an aggregate is not.
    let out = run_on("SELECT * FROM logs WHERE severity_text LIKE '%O%' ORDER BY timestamp_ns DESC", logs());
    assert_eq!(times(&out.unwrap()), vec![4, 3, 1]);
}

#[test]
fn filtering_by_mask() {
    let b = sample();
    let kept = b
        .filter(&Cells { values: vec![true, true, false], valid: vec![true, false, true] })
        .unwrap();
    assert_eq!(kept.rows, 1);
    assert_eq!(b.slice(1, 2).rows, 2);
    let mut twice = sample();
    twice.append(sample());
    assert_eq!(twice.rows, 6);
}
