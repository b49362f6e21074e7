use sana::arithmetic::Step;
use sana::error::Error;
use sana::schema::DistanceMetric;
use sana::text::scoring::{bm25_term_score, Bm25Params};
use sana::value::Id;
use sana::vector::kernel::{
    recompute_centroids, score, score_batch, DistanceKernel, ScalarDistanceKernel,
};
use sana::vector::VectorEntry;

fn f(bits: u32) -> f32 {
    f32::from_bits(bits)
}

fn calc(step: Step) -> u32 {
    match step {
        Step::Add(a, b) => (f(a) + f(b)).to_bits(),
        Step::Sub(a, b) => (f(a) - f(b)).to_bits(),
        Step::Mul(a, b) => (f(a) * f(b)).to_bits(),
        Step::Div(a, b) => (f(a) / f(b)).to_bits(),
        Step::Sqrt(a) => f(a).sqrt().to_bits(),
        Step::Ln(a) => f(a).ln().to_bits(),
        Step::Count(n) => (n as f32).to_bits(),
        Step::Level { .. } => 0,
    }
}

fn bits(values: &[f32]) -> Vec<u32> {
    values.iter().map(|v| v.to_bits()).collect()
}

fn pair(a: &[f32], b: &[f32], metric: DistanceMetric) -> Result<f32, Error> {
    score(&bits(a), &bits(b), metric, calc).map(f)
}

#[test]
fn scores_follow_the_metric() {
    assert_eq!(pair(&[1.0, 2.0], &[4.0, 6.0], DistanceMetric::L2).unwrap(), -25.0);
    assert_eq!(pair(&[1.0, 2.0], &[4.0, 6.0], DistanceMetric::Dot).unwrap(), 16.0);
    assert_eq!(pair(&[3.0, 4.0], &[4.0, 3.0], DistanceMetric::Cosine).unwrap(), 24.0 / 25.0);
    assert_eq!(pair(&[0.0, 2.0], &[5.0, 0.0], DistanceMetric::Cosine).unwrap(), 0.0);
}

#[test]
fn vectors_without_a_score_are_refused() {
    for metric in [DistanceMetric::L2, DistanceMetric::Dot, DistanceMetric::Cosine] {
        assert!(matches!(pair(&[1.0], &[1.0, 2.0], metric), Err(Error::InvalidQuery(_))));
        assert!(matches!(pair(&[1.0], &[f32::NAN], metric), Err(Error::InvalidQuery(_))));
        assert!(matches!(pair(&[f32::INFINITY], &[1.0], metric), Err(Error::InvalidQuery(_))));
    }
    assert!(matches!(
        pair(&[0.0, 0.0], &[1.0, 2.0], DistanceMetric::Cosine),
        Err(Error::InvalidQuery(_))
    ));
    assert!(matches!(
        pair(&[1.0, 2.0], &[0.0, -0.0], DistanceMetric::Cosine),
        Err(Error::InvalidQuery(_))
    ));
}

#[test]
fn batches_fill_the_places_in_order() {
    let query = bits(&[1.0, 0.0]);
    let candidates = vec![bits(&[1.0, 0.0]), bits(&[0.0, 1.0]), bits(&[0.0, 0.0])];
    let mut out = vec![7, 7, 7];
    score_batch(&query, &candidates, DistanceMetric::L2, &mut out, calc).unwrap();
    assert_eq!(out.iter().map(|s| f(*s)).collect::<Vec<_>>(), [0.0, -2.0, -1.0]);

    let mut out = vec![7, 7, 7];
    ScalarDistanceKernel::dot_f32_batch(&query, &candidates, &mut out, calc).unwrap();
    assert_eq!(out, bits(&[1.0, 0.0, 0.0]));

    // The scores up to the vector without length stay.
    let mut out = vec![7, 7, 7];
    assert!(matches!(
        score_batch(&query, &candidates, DistanceMetric::Cosine, &mut out, calc),
        Err(Error::InvalidQuery(_))
    ));
    assert_eq!(out, [1.0f32.to_bits(), 0.0f32.to_bits(), 7]);

    let mut short = vec![7];
    assert!(score_batch(&query, &candidates, DistanceMetric::Dot, &mut short, calc).is_err());
    assert_eq!(short, [7]);
    assert!(matches!(
        score_batch(&bits(&[0.0]), &vec![], DistanceMetric::Cosine, &mut vec![], calc),
        Err(Error::InvalidQuery(_))
    ));
    assert!(score_batch(&bits(&[0.0]), &vec![], DistanceMetric::L2, &mut vec![], calc).is_ok());
}

#[test]
fn centroids_move_to_the_mean() {
    let entries: Vec<VectorEntry> = [[1.0f32, 2.0], [3.0, 6.0], [0.0, 5.0]]
        .iter()
        .enumerate()
        .map(|(i, v)| VectorEntry {
            id: Id::U64(i as u64),
            vector: bits(v),
            local_id: 0,
            version: 1,
        })
        .collect();
    let centroids = vec![bits(&[9.0, 9.0]), bits(&[8.0, 8.0]), bits(&[7.0, 7.0])];
    let assignments = vec![0, 0, 2];
    assert_eq!(
        recompute_centroids(&entries, &assignments, &centroids, DistanceMetric::L2, calc),
        [bits(&[2.0, 4.0]), bits(&[8.0, 8.0]), bits(&[0.0, 5.0])]
    );
    let turned =
        recompute_centroids(&entries, &assignments, &centroids, DistanceMetric::Cosine, calc);
    assert_eq!(turned[2], bits(&[0.0, 1.0]));
    assert_eq!(turned[1], bits(&[8.0, 8.0]));
    let length = (4.0f32 + 16.0).sqrt();
    assert_eq!(turned[0], bits(&[2.0 / length, 4.0 / length]));
}

#[test]
fn rare_terms_score_higher() {
    let at = |tf: u32, len: u32, average: f32, count: u64, freq: u64| {
        f(bm25_term_score(tf, len, average.to_bits(), count, freq, Bm25Params::default(), calc))
    };
    // The logarithm of 1 + 9.5 / 1.5, at a document of the mean length.
    let idf = (1.0f32 + (10.0 - 1.0 + 0.5) / 1.5).ln();
    assert_eq!(at(1, 4, 4.0, 10, 1), idf * (1.0 * 2.2) / (1.0 + 1.2 * 1.0));
    assert!(at(1, 4, 4.0, 10, 1) > at(1, 4, 4.0, 10, 5));
    assert!(at(3, 4, 4.0, 10, 1) > at(1, 4, 4.0, 10, 1));
    assert!(at(1, 2, 4.0, 10, 1) > at(1, 8, 4.0, 10, 1));
    assert_eq!(at(0, 4, 4.0, 10, 1), 0.0);
    assert_eq!(at(1, 0, 4.0, 10, 1), 0.0);
    assert_eq!(at(1, 4, 0.0, 10, 1), 0.0);
    assert_eq!(at(1, 4, -1.0, 10, 1), 0.0);
    assert_eq!(at(1, 4, 4.0, 0, 1), 0.0);
    assert_eq!(at(1, 4, 4.0, 10, 0), 0.0);
    // Weights that are not allowed give way to the usual ones.
    let odd = Bm25Params { k1: 0, b: 0, k3: 0 };
    assert_eq!(
        f(bm25_term_score(2, 4, 4.0f32.to_bits(), 10, 1, odd, calc)),
        at(2, 4, 4.0, 10, 1)
    );
    // A term cannot be in more documents than there are.
    assert_eq!(at(1, 4, 4.0, 10, 10), at(1, 4, 4.0, 10, 99));
}
