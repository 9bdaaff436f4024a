//! Columns behave as Arrow's arrays do.

use arrow::array::{
    Array, ArrayRef, BooleanArray, Float64Array, Int64Array, StringArray, UInt64Array,
};
use arrow::compute::{lexsort_to_indices, SortColumn, SortOptions};
use infralens::columnar::batch::Batch;
use infralens::columnar::column::{Cells, Column};
use infralens::common::schema::{DataType, Field, Schema};
use infralens::query::ast::{BinOp, Expr, OrderByItem};
use infralens::query::error::QueryError;
use infralens::query::executor::sort::sort_batch;
use infralens::query::functions::compute::{
    and_masks, arithmetic_arrays, compare_arrays, negate_numeric, not_mask, or_masks,
};
use std::sync::Arc;

fn cells<T: Clone + Default>(v: &[Option<T>]) -> Cells<T> {
    Cells {
        values: v.iter().map(|x| x.clone().unwrap_or_default()).collect(),
        valid: v.iter().map(|x| x.is_some()).collect(),
    }
}

fn bits(v: &[Option<f64>]) -> Vec<Option<u64>> {
    v.iter().map(|x| x.map(f64::to_bits)).collect()
}

fn options<T: Clone>(c: &Cells<T>) -> Vec<Option<T>> {
    (0..c.values.len()).map(|i| if c.valid[i] { Some(c.values[i].clone()) } else { None }).collect()
}

fn mask(a: &BooleanArray) -> Vec<Option<bool>> {
    (0..a.len()).map(|i| if a.is_valid(i) { Some(a.value(i)) } else { None }).collect()
}

const OPS: [BinOp; 6] = [BinOp::Eq, BinOp::NotEq, BinOp::Lt, BinOp::LtEq, BinOp::Gt, BinOp::GtEq];

fn compared(l: &dyn arrow::array::Datum, r: &dyn arrow::array::Datum, op: BinOp) -> BooleanArray {
    match op {
        BinOp::Eq => arrow_ord::cmp::eq(l, r),
        BinOp::NotEq => arrow_ord::cmp::neq(l, r),
        BinOp::Lt => arrow_ord::cmp::lt(l, r),
        BinOp::LtEq => arrow_ord::cmp::lt_eq(l, r),
        BinOp::Gt => arrow_ord::cmp::gt(l, r),
        _ => arrow_ord::cmp::gt_eq(l, r),
    }
    .unwrap()
}

/// All pairs of the values.
fn pairs<T: Clone>(v: &[T]) -> (Vec<T>, Vec<T>) {
    let mut l = Vec::new();
    let mut r = Vec::new();
    for a in v {
        for b in v {
            l.push(a.clone());
            r.push(b.clone());
        }
    }
    (l, r)
}

fn int_values() -> Vec<Option<i64>> {
    vec![None, Some(0), Some(1), Some(-1), Some(7), Some(i64::MAX), Some(i64::MIN)]
}

fn float_values() -> Vec<Option<f64>> {
    vec![
        None,
        Some(0.0),
        Some(-0.0),
        Some(1.5),
        Some(-1.5),
        Some(f64::INFINITY),
        Some(f64::NEG_INFINITY),
        Some(f64::NAN),
        Some(5e-324),
        Some(1e308),
    ]
}

fn text_values() -> Vec<Option<String>> {
    let mut v: Vec<Option<String>> = ["", "a", "ab", "b", "A", "\u{e9}", "\u{10348}", "\u{ffff}"]
        .iter()
        .map(|s| Some(s.to_string()))
        .collect();
    v.push(None);
    v
}

#[test]
fn comparisons_agree() {
    for op in OPS {
        let (l, r) = pairs(&int_values());
        let want = compared(&Int64Array::from(l.clone()), &Int64Array::from(r.clone()), op);
        let got =
            compare_arrays(&Column::Int64(cells(&l)), &Column::Int64(cells(&r)), op).unwrap();
        assert_eq!(options(&got), mask(&want), "integers, {op:?}");

        let (l, r) = pairs(&vec![None, Some(0u64), Some(1), Some(u64::MAX)]);
        let want = compared(&UInt64Array::from(l.clone()), &UInt64Array::from(r.clone()), op);
        let got =
            compare_arrays(&Column::UInt64(cells(&l)), &Column::UInt64(cells(&r)), op).unwrap();
        assert_eq!(options(&got), mask(&want), "unsigned integers, {op:?}");

        let (l, r) = pairs(&float_values());
        let want = compared(&Float64Array::from(l.clone()), &Float64Array::from(r.clone()), op);
        let got = compare_arrays(
            &Column::Float64(cells(&bits(&l))),
            &Column::Float64(cells(&bits(&r))),
            op,
        )
        .unwrap();
        assert_eq!(options(&got), mask(&want), "floats, {op:?}");

        let (l, r) = pairs(&text_values());
        let want = compared(&StringArray::from(l.clone()), &StringArray::from(r.clone()), op);
        let got = compare_arrays(&Column::Utf8(cells(&l)), &Column::Utf8(cells(&r)), op).unwrap();
        assert_eq!(options(&got), mask(&want), "texts, {op:?}");
    }
}

#[test]
fn comparing_different_lengths_fails_alike() {
    let short = Int64Array::from(vec![1]);
    let long = Int64Array::from(vec![1, 2]);
    let want = arrow_ord::cmp::eq(&short, &long).unwrap_err().to_string();
    let l = Column::Int64(cells(&[Some(1)]));
    let r = Column::Int64(cells(&[Some(1), Some(2)]));
    match compare_arrays(&l, &r, BinOp::Eq) {
        Err(QueryError::Arrow(m)) => assert_eq!(m, want),
        _ => panic!("expected an error"),
    }
}

#[test]
fn connectives_agree() {
    let (l, r) = pairs(&[Some(true), Some(false), None]);
    let (la, ra) = (BooleanArray::from(l.clone()), BooleanArray::from(r.clone()));
    let (lc, rc) = (cells(&l), cells(&r));
    assert_eq!(
        options(&and_masks(&lc, &rc).unwrap()),
        mask(&arrow::compute::and(&la, &ra).unwrap())
    );
    assert_eq!(
        options(&or_masks(&lc, &rc).unwrap()),
        mask(&arrow::compute::or(&la, &ra).unwrap())
    );
    assert_eq!(options(&not_mask(&lc)), mask(&arrow::compute::not(&la).unwrap()));
    let short = cells(&[Some(true)]);
    let want = arrow::compute::and(&la, &BooleanArray::from(vec![true])).unwrap_err().to_string();
    assert!(matches!(and_masks(&lc, &short), Err(QueryError::Arrow(m)) if m == want));
}

fn calculated(l: &Int64Array, r: &Int64Array, op: BinOp) -> Result<ArrayRef, String> {
    match op {
        BinOp::Add => arrow_arith::numeric::add(l, r),
        BinOp::Sub => arrow_arith::numeric::sub(l, r),
        BinOp::Mul => arrow_arith::numeric::mul(l, r),
        _ => arrow_arith::numeric::div(l, r),
    }
    .map_err(|e| e.to_string())
}

#[test]
fn arithmetic_agrees() {
    for op in [BinOp::Add, BinOp::Sub, BinOp::Mul, BinOp::Div] {
        for a in int_values() {
            for b in int_values() {
                let want =
                    calculated(&Int64Array::from(vec![a]), &Int64Array::from(vec![b]), op);
                let got = arithmetic_arrays(
                    &Column::Int64(cells(&[a])),
                    &Column::Int64(cells(&[b])),
                    op,
                );
                match (got, want) {
                    (Ok(Column::Int64(c)), Ok(w)) => {
                        let w = w.as_any().downcast_ref::<Int64Array>().unwrap().clone();
                        let w = if w.is_valid(0) { Some(w.value(0)) } else { None };
                        assert_eq!(options(&c), vec![w], "{a:?} {op:?} {b:?}");
                    }
                    (Err(QueryError::Arrow(m)), Err(w)) => {
                        assert_eq!(m, w, "{a:?} {op:?} {b:?}")
                    }
                    (got, want) => panic!("{a:?} {op:?} {b:?}: {got:?} and {want:?}"),
                }
            }
        }
    }
}

#[test]
fn float_arithmetic_agrees() {
    let (l, r) = pairs(&float_values());
    let (la, ra) = (Float64Array::from(l.clone()), Float64Array::from(r.clone()));
    let (lc, rc) = (Column::Float64(cells(&bits(&l))), Column::Float64(cells(&bits(&r))));
    for op in [BinOp::Add, BinOp::Sub, BinOp::Mul, BinOp::Div] {
        let want = match op {
            BinOp::Add => arrow_arith::numeric::add(&la, &ra),
            BinOp::Sub => arrow_arith::numeric::sub(&la, &ra),
            BinOp::Mul => arrow_arith::numeric::mul(&la, &ra),
            _ => arrow_arith::numeric::div(&la, &ra),
        }
        .unwrap();
        let want = want.as_any().downcast_ref::<Float64Array>().unwrap().clone();
        let got = match arithmetic_arrays(&lc, &rc, op).unwrap() {
            Column::Float64(c) => options(&c),
            _ => panic!("not a column of floats"),
        };
        for i in 0..want.len() {
            match got[i].map(f64::from_bits) {
                None => assert!(want.is_null(i)),
                Some(x) => {
                    assert!(want.is_valid(i));
                    let w = want.value(i);
                    assert!(x.to_bits() == w.to_bits() || (x.is_nan() && w.is_nan()));
                }
            }
        }
    }
}

#[test]
fn negation_of_numbers() {
    match negate_numeric(&Column::Int64(cells(&[Some(5), Some(-3)]))).unwrap() {
        Column::Int64(c) => assert_eq!(options(&c), vec![Some(-5), Some(3)]),
        _ => panic!("not a column of integers"),
    }
    assert!(matches!(
        negate_numeric(&Column::Int64(cells(&[Some(i64::MIN)]))),
        Err(QueryError::Abort(_))
    ));
}

#[test]
fn sorting_agrees() {
    let first = vec![Some(2i64), None, Some(1), Some(2), None, Some(1), Some(i64::MIN)];
    let second = vec![
        Some(0.5f64),
        Some(1.0),
        None,
        Some(-0.0),
        Some(f64::NAN),
        Some(0.0),
        Some(f64::NEG_INFINITY),
    ];
    let rows: Vec<Option<u64>> = (0..7u64).map(Some).collect();
    let field = |name: &str, data_type| Field { name: name.to_string(), data_type, nullable: true };
    for first_asc in [true, false] {
        for second_asc in [true, false] {
            let option = |asc: bool| Some(SortOptions { descending: !asc, nulls_first: false });
            let want = lexsort_to_indices(
                &[
                    SortColumn {
                        values: Arc::new(Int64Array::from(first.clone())),
                        options: option(first_asc),
                    },
                    SortColumn {
                        values: Arc::new(Float64Array::from(second.clone())),
                        options: option(second_asc),
                    },
                ],
                None,
            )
            .unwrap();
            let batch = Batch::try_new(
                Schema {
                    fields: vec![
                        field("n", DataType::UInt64),
                        field("a", DataType::Int64),
                        field("b", DataType::Float64),
                    ],
                },
                vec![
                    Column::UInt64(cells(&rows)),
                    Column::Int64(cells(&first)),
                    Column::Float64(cells(&bits(&second))),
                ],
            )
            .unwrap();
            let by = |name: &str, asc: bool| OrderByItem {
                expr: Expr::Column { table: None, name: name.to_string() },
                asc,
            };
            let sorted = sort_batch(batch, &vec![by("a", first_asc), by("b", second_asc)]);
            let got: Vec<u32> = match &sorted.columns[0] {
                Column::UInt64(c) => c.values.iter().map(|n| *n as u32).collect(),
                _ => panic!("not a column of unsigned integers"),
            };
            let want: Vec<u32> = want.values().iter().copied().collect();
            assert_eq!(got, want);
        }
    }
}

#[test]
fn batches_are_checked_alike() {
    let nullable = Field { name: "a".to_string(), data_type: DataType::Int64, nullable: false };
    let got = Batch::try_new(
        Schema { fields: vec![nullable] },
        vec![Column::Int64(cells(&[Some(1), None]))],
    )
    .unwrap_err();
    let schema = arrow::datatypes::Schema::new(vec![arrow::datatypes::Field::new(
        "a",
        arrow::datatypes::DataType::Int64,
        false,
    )]);
    let column: ArrayRef = Arc::new(Int64Array::from(vec![Some(1), None]));
    let want = arrow::record_batch::RecordBatch::try_new(Arc::new(schema), vec![column])
        .unwrap_err()
        .to_string();
    assert_eq!(got, want);
}
