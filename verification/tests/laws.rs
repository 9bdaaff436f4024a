use infralens::cluster::ring::{ConsistentHashRing, ShardId};
use infralens::columnar::batch::Batch;
use infralens::columnar::column::{Cells, Column};
use infralens::common::schema::{log_schema, DataType, Field, Schema};
use infralens::float::negate;
use infralens::query::ast::{BinOp, Expr, Literal, OrderByItem};
use infralens::query::error::QueryError;
use infralens::query::executor::operator::{LimitOperator, Operator, ScanOperator, SortOperator};
use infralens::query::functions::compute::compare_arrays;
use infralens::query::functions::eval::eval_expr;
use infralens::query::interval::parse_interval;
use infralens::query::lexer::Lexer;
use infralens::query::optimizer::cost::choose_join_strategy;
use infralens::query::optimizer::rules::fold_expr;
use infralens::storage::bloom::BloomFilter;
use infralens::storage::partition::PartitionKey;
use infralens::text::{decimal_text, parse_u64};

fn literal(n: i64) -> Expr {
    Expr::Literal(Literal::Int(n))
}

fn binary(op: BinOp, left: Expr, right: Expr) -> Expr {
    Expr::BinOp { op, left: Box::new(left), right: Box::new(right) }
}

fn one_row() -> Batch {
    let field = Field { name: "i".to_string(), data_type: DataType::Int64, nullable: false };
    Batch::try_new(
        Schema { fields: vec![field] },
        vec![Column::Int64(Cells { values: vec![5], valid: vec![true] })],
    )
    .unwrap()
}

fn value(e: &Expr, now_ns: i64) -> i64 {
    match eval_expr(&one_row(), e, now_ns).unwrap() {
        Column::Int64(c) => c.values[0],
        _ => panic!("not a column of integers"),
    }
}

#[test]
fn negating_twice_changes_nothing() {
    for x in [0.0f64, -0.0, 1.5, f64::INFINITY, f64::NAN] {
        assert_eq!(negate(negate(x.to_bits())), x.to_bits());
        assert_eq!(negate(x.to_bits()), (-x).to_bits());
    }
}

#[test]
fn join_strategy_is_symmetric() {
    for l in [0, 10_000, 10_001, 1_000_000, 1_000_001] {
        for r in [0, 10_000, 10_001, 1_000_000, 1_000_001] {
            assert_eq!(choose_join_strategy(l, r), choose_join_strategy(r, l));
        }
    }
}

#[test]
fn folding_keeps_values() {
    let now = || Expr::Function { name: "now".to_string(), args: Vec::new() };
    let column = || Expr::Column { table: None, name: "i".to_string() };
    let build: Vec<Box<dyn Fn() -> Expr>> = vec![
        Box::new(move || binary(BinOp::Add, literal(2), binary(BinOp::Mul, literal(3), literal(4)))),
        Box::new(move || binary(BinOp::Sub, now(), literal(7))),
        Box::new(move || binary(BinOp::Add, column(), binary(BinOp::Div, literal(9), literal(2)))),
        Box::new(move || binary(BinOp::Add, literal(1), Expr::Interval(30))),
    ];
    for b in build {
        let folded = fold_expr(b(), 1000);
        assert_eq!(value(&folded, 1000), value(&b(), 1000));
        let again = fold_expr(fold_expr(b(), 1000), 1000);
        assert_eq!(format!("{again:?}"), format!("{folded:?}"));
    }
}

#[test]
fn remainders_are_only_known_when_folded() {
    let e = || binary(BinOp::Mod, literal(7), literal(3));
    assert_eq!(value(&fold_expr(e(), 0), 0), 1);
    assert!(eval_expr(&one_row(), &e(), 0).is_err());
}

#[test]
fn comparisons_are_complements() {
    let c = |v: Vec<i64>| Column::Int64(Cells { valid: vec![true; v.len()], values: v });
    let (l, r) = (c(vec![1, 2, 3]), c(vec![2, 2, 2]));
    for (a, b) in [(BinOp::Eq, BinOp::NotEq), (BinOp::Lt, BinOp::GtEq), (BinOp::Gt, BinOp::LtEq)] {
        let x = compare_arrays(&l, &r, a).unwrap().values;
        let y = compare_arrays(&l, &r, b).unwrap().values;
        for i in 0..3 {
            assert_eq!(x[i], !y[i]);
        }
    }
}

#[test]
fn decimal_numbers_read_back() {
    for n in [0, 7, 10, 999_999, u64::MAX] {
        assert_eq!(parse_u64(&decimal_text(n)), Some(n));
    }
}

#[test]
fn partitions_cover_time_once() {
    let width = 1000;
    for ts in [0, 1, 999, 1000, 1001, 123_456] {
        let key = PartitionKey::for_timestamp(ts, width);
        assert!(key.0 <= ts && ts - key.0 < width && key.0 % width == 0);
    }
}

#[test]
fn filters_survive_writing() {
    let mut f = BloomFilter::new(500, 4);
    for i in 0..50u32 {
        f.insert(&i.to_le_bytes());
    }
    let back = BloomFilter::from_bytes(&f.to_bytes()).unwrap();
    assert_eq!(back.to_bytes(), f.to_bytes());
    for i in 0..50u32 {
        assert!(back.contains(&i.to_le_bytes()));
    }
}

#[test]
fn owners_come_first_among_holders() {
    let mut ring = ConsistentHashRing::new(20);
    for n in ["a", "b", "c", "d"] {
        ring.add_node(n);
    }
    for i in 0..200 {
        let shard = ShardId::for_key(&format!("{i}"));
        for count in 1..6 {
            let holders = ring.replica_nodes(shard, count).unwrap();
            assert_eq!(holders[0], ring.primary_for(shard).unwrap());
            assert_eq!(holders.len(), count.min(4));
        }
    }
}

#[test]
fn columns_are_found_by_name() {
    let s = log_schema();
    for f in &s.fields {
        let i = s.index_of(&f.name).unwrap();
        assert_eq!(s.fields[i].name, f.name);
    }
}

#[test]
fn blanks_add_no_token() {
    let sql = "SELECT a, 'it''s' FROM logs WHERE x <= 1.5 -- odd";
    let tokens = Lexer::new(sql).tokenise().unwrap();
    let padded = format!("-- c\n \t{sql}\n-- d");
    assert_eq!(Lexer::new(&padded).tokenise().unwrap(), tokens);
}

#[test]
fn intervals_in_every_spelling() {
    let units: [(&str, i64); 6] = [
        ("us", 1_000),
        ("Milliseconds", 1_000_000),
        ("SEC", 1_000_000_000),
        ("m", 60_000_000_000),
        ("Hour", 3_600_000_000_000),
        ("DAYS", 86_400_000_000_000),
    ];
    for (unit, ns) in units {
        for n in [-3i64, 0, 1, 42] {
            for text in [format!("{n}{unit}"), format!(" {n} {unit} "), format!("{n}\t{unit}\n")] {
                assert_eq!(parse_interval(&text).unwrap(), n * ns, "{text}");
            }
        }
    }
    for text in ["5", "m", "1.5h", "", "5 lightyears"] {
        assert!(matches!(parse_interval(text), Err(QueryError::Parse(_))), "{text}");
    }
}

#[test]
fn whole_numbers_fold_to_their_value() {
    let e = binary(
        BinOp::Sub,
        binary(BinOp::Mul, literal(-7), literal(3)),
        binary(BinOp::Mod, literal(-7), binary(BinOp::Div, literal(-9), literal(2))),
    );
    assert!(matches!(fold_expr(e, 0), Expr::Literal(Literal::Int(-18))));
    let undefined = binary(BinOp::Add, literal(1), binary(BinOp::Div, literal(4), literal(0)));
    match fold_expr(undefined, 0) {
        Expr::BinOp { right, .. } => assert!(matches!(*right, Expr::BinOp { op: BinOp::Div, .. })),
        _ => panic!("the undefined step is gone"),
    }
    let overflow = binary(BinOp::Mod, literal(i64::MIN), literal(-1));
    assert!(matches!(fold_expr(overflow, 0), Expr::BinOp { op: BinOp::Mod, .. }));
}

fn numbers(from: i64, to: i64) -> Batch {
    let field = Field { name: "i".to_string(), data_type: DataType::Int64, nullable: false };
    let values: Vec<i64> = (from..to).collect();
    let valid = vec![true; values.len()];
    Batch::try_new(Schema { fields: vec![field] }, vec![Column::Int64(Cells { values, valid })])
        .unwrap()
}

fn scan(batches: Vec<Batch>) -> Box<Operator> {
    let schema = numbers(0, 0).schema;
    Box::new(Operator::Scan(ScanOperator { schema, batches, batch_size: 10 }))
}

fn values(b: &Batch) -> Vec<i64> {
    match &b.columns[0] {
        Column::Int64(c) => c.values.clone(),
        _ => panic!("not a column of integers"),
    }
}

#[test]
fn limits_give_the_asked_rows() {
    for offset in 0..9u64 {
        for limit in 0..9u64 {
            let child = scan(vec![numbers(0, 3), numbers(3, 3), numbers(3, 4), numbers(4, 7)]);
            let mut op = LimitOperator::new(child, limit, offset);
            let mut got = Vec::new();
            while let Some(b) = op.poll_next(0).unwrap() {
                assert!(b.rows > 0);
                got.extend(values(&b));
            }
            let want: Vec<i64> = (0..7).skip(offset as usize).take(limit as usize).collect();
            assert_eq!(got, want);
            assert!(op.poll_next(0).unwrap().is_none());
        }
    }
}

#[test]
fn sorts_give_one_batch() {
    let keys = vec![OrderByItem {
        expr: Expr::Column { table: None, name: "i".to_string() },
        asc: false,
    }];
    let mut op = SortOperator::new(scan(vec![numbers(2, 4), numbers(0, 3)]), keys);
    let b = op.poll_next(0).unwrap().unwrap();
    assert_eq!(values(&b), vec![3, 2, 2, 1, 0]);
    assert!(op.poll_next(0).unwrap().is_none());
}
