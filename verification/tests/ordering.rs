use sana::arithmetic::Step;
use sana::query::nearest::best_rows;
use sana::query::{sort_rows, OrderBy, OrderTarget, QueryRow, SortDirection};
use sana::rabitq::RabitqCluster;
use sana::schema::DistanceMetric;
use sana::value::{Document, Id, Value};
use sana::vector::kernel::score;
use sana::vector::{sort_hits, VectorHit};

fn f(bits: u32) -> f32 {
    f32::from_bits(bits)
}

fn calc(step: Step) -> u32 {
    match step {
        Step::Add(a, b) => (f(a) + f(b)).to_bits(),
        Step::Sub(a, b) => (f(a) - f(b)).to_bits(),
        Step::Mul(a, b) => (f(a) * f(b)).to_bits(),
        Step::Div(a, b) => (f(a) / f(b)).to_bits(),
        Step::Sqrt(a) => f(a).sqrt().to_bits(),
        Step::Ln(a) => f(a).ln().to_bits(),
        Step::Count(n) => (n as f32).to_bits(),
        Step::Level { .. } => 0,
    }
}

fn hit(id: u64, score: f32) -> VectorHit {
    VectorHit { id: Id::U64(id), version: 1, score: score.to_bits() }
}

fn sorted(mut hits: Vec<VectorHit>) -> Vec<Id> {
    sort_hits(&mut hits);
    hits.into_iter().map(|h| h.id).collect()
}

#[test]
fn hits_come_best_first() {
    assert_eq!(
        sorted(vec![hit(3, 0.5), hit(2, 0.75), hit(1, 0.5), hit(4, -1.0)]),
        [2, 1, 3, 4].map(Id::U64)
    );
    assert_eq!(sorted(vec![hit(2, 0.0), hit(1, -0.0)]), [1, 2].map(Id::U64));
    assert_eq!(
        sorted(vec![hit(1, f32::NEG_INFINITY), hit(2, f32::INFINITY)]),
        [2, 1].map(Id::U64)
    );
}

#[test]
fn a_score_that_is_no_number_leaves_the_choice_to_the_key() {
    for other in [f32::INFINITY, 1.0, f32::NEG_INFINITY, f32::NAN] {
        assert_eq!(sorted(vec![hit(1, f32::NAN), hit(2, other)]), [1, 2].map(Id::U64));
        assert_eq!(sorted(vec![hit(2, f32::NAN), hit(1, other)]), [1, 2].map(Id::U64));
    }
    // Among more hits some order comes out, and every hit is still there.
    let mut all = vec![hit(1, 0.0), hit(2, f32::NAN), hit(3, 1.0)];
    sort_hits(&mut all);
    for id in [1, 2, 3].map(Id::U64) {
        assert!(all.iter().any(|h| h.id == id));
    }
    assert_eq!(all.len(), 3);
}

fn row(id: u64, score: Option<f32>) -> QueryRow {
    QueryRow {
        id: Id::U64(id),
        document: Document::new(Id::U64(id)),
        score: score.map(|s| s.to_bits()),
    }
}

fn best(rows: Vec<QueryRow>, keep: usize) -> Vec<Id> {
    best_rows(rows, keep).into_iter().map(|row| row.id).collect()
}

#[test]
fn the_best_rows_come_first() {
    let rows = || vec![row(3, Some(0.5)), row(1, None), row(2, Some(0.5)), row(4, Some(2.0))];
    assert_eq!(best(rows(), 9), [4, 2, 3, 1].map(Id::U64));
    assert_eq!(best(rows(), 2), [4, 2].map(Id::U64));
    assert_eq!(best(vec![row(2, Some(f32::NAN)), row(1, Some(9.0))], 1), [Id::U64(1)]);
    assert_eq!(best(vec![row(2, Some(9.0)), row(1, Some(f32::NAN))], 1), [Id::U64(1)]);
    assert_eq!(best(vec![row(1, None), row(2, Some(f32::NAN))], 1), [Id::U64(2)]);
}

fn ordered(values: Vec<(u64, Option<Value>)>, direction: SortDirection) -> Vec<Id> {
    let mut rows: Vec<QueryRow> = values
        .into_iter()
        .map(|(id, value)| {
            let mut document = Document::new(Id::U64(id));
            if let Some(value) = value {
                document.attributes.insert("n".to_string(), value);
            }
            QueryRow { id: Id::U64(id), document, score: None }
        })
        .collect();
    let by = OrderBy { target: OrderTarget::Attribute("n".into()), direction };
    sort_rows(&mut rows, &by).unwrap();
    rows.into_iter().map(|row| row.id).collect()
}

#[test]
fn integers_and_floats_are_ordered_by_their_values() {
    let float = |v: f64| Some(Value::Float(v.to_bits()));
    let values = || vec![(1, Some(Value::Int(1))), (2, float(0.5)), (3, float(1.5)), (4, None)];
    assert_eq!(ordered(values(), SortDirection::Asc), [2, 1, 3, 4].map(Id::U64));
    assert_eq!(ordered(values(), SortDirection::Desc), [3, 1, 2, 4].map(Id::U64));
}

#[test]
fn values_that_do_not_compare_leave_the_choice_to_the_key() {
    let nan = || Some(Value::Float(f64::NAN.to_bits()));
    let text = || Some(Value::String("a".into()));
    for direction in [SortDirection::Asc, SortDirection::Desc] {
        assert_eq!(ordered(vec![(2, nan()), (1, Some(Value::Int(5)))], direction), [1, 2].map(Id::U64));
        assert_eq!(ordered(vec![(2, text()), (1, Some(Value::Bool(true)))], direction), [1, 2].map(Id::U64));
        assert_eq!(ordered(vec![(1, text()), (2, Some(Value::Int(0)))], direction), [1, 2].map(Id::U64));
    }
}

#[test]
fn sums_of_nothing_and_of_negative_zeros_are_negative_zero() {
    let pair = |a: &[f32], b: &[f32], m| {
        let a: Vec<u32> = a.iter().map(|v| v.to_bits()).collect();
        let b: Vec<u32> = b.iter().map(|v| v.to_bits()).collect();
        score(&a, &b, m, calc).unwrap()
    };
    let expected: f32 = [1.0f32 * -0.0].iter().sum();
    assert_eq!(pair(&[1.0], &[-0.0], DistanceMetric::Dot), expected.to_bits());
    assert_eq!(pair(&[1.0], &[-0.0], DistanceMetric::Dot), (-0.0f32).to_bits());
    assert_eq!(pair(&[], &[], DistanceMetric::Dot), (-0.0f32).to_bits());
    assert_eq!(pair(&[], &[], DistanceMetric::L2), 0.0f32.to_bits());
    assert_eq!(pair(&[2.0], &[2.0], DistanceMetric::L2), (-0.0f32).to_bits());
    let cluster = RabitqCluster { centroid_id: 0, transform_seed: 1, codes: Vec::new() };
    assert_eq!(cluster.rotate_query(&vec![], 1, calc).residual_norm_sq, (-0.0f32).to_bits());
    let turned = cluster.rotate_query(&vec![2.0f32.to_bits(), 3.0f32.to_bits()], 2, calc);
    assert_eq!(f(turned.residual_norm_sq), 13.0);
}
