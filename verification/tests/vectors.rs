use sana::arithmetic::Step;
use sana::error::Error;
use sana::manifest::{VectorMaintenanceAction, VectorMaintenanceThresholds};
use sana::query::ann::{ann_answer, ann_search, AnnSearch};
use sana::query::execute::{ApproxVectorQuery, ExactVectorQuery};
use sana::query::native::native_filter_mask;
use sana::query::recall::{recall_counts, recall_sample};
use sana::query::nearest::exact_nearest;
use sana::query::{FilterExpr, QueryRow};
use sana::schema::{DistanceMetric, Schema};
use sana::sorted::{SortedMap, SortedSet};
use sana::value::{copy_document, Document, Id, Value, VectorValue};
use sana::vector::kernel::{recompute_centroids, score};
use sana::vector::mask::VectorFilterMask;
use sana::vector::numbers::{is_all_finite, recall_at, vector_to_f32, widen};
use sana::vector::{VectorEntry, VectorIndex, VectorVersionMap};
use sana::wal::WalOp;

fn bits(values: &[f32]) -> Vec<u32> {
    values.iter().map(|v| v.to_bits()).collect()
}

fn calc(step: Step) -> u32 {
    let f = f32::from_bits;
    match step {
        Step::Add(a, b) => (f(a) + f(b)).to_bits(),
        Step::Sub(a, b) => (f(a) - f(b)).to_bits(),
        Step::Mul(a, b) => (f(a) * f(b)).to_bits(),
        Step::Div(a, b) => (f(a) / f(b)).to_bits(),
        Step::Sqrt(a) => f(a).sqrt().to_bits(),
        Step::Ln(a) => f(a).ln().to_bits(),
        Step::Count(n) => (n as f32).to_bits(),
        Step::Level { .. } => 0,
    }
}

fn l2(a: &Vec<u32>, b: &Vec<u32>, metric: DistanceMetric) -> Result<u32, Error> {
    score(a, b, metric, calc)
}

fn means(
    entries: &Vec<VectorEntry>,
    assignments: &Vec<usize>,
    centroids: &Vec<Vec<u32>>,
    metric: DistanceMetric,
) -> Vec<Vec<u32>> {
    recompute_centroids(entries, assignments, centroids, metric, calc)
}

fn entry(id: u64, x: f32, y: f32) -> VectorEntry {
    VectorEntry { id: Id::U64(id), vector: bits(&[x, y]), local_id: 0, version: 1 }
}

fn documents(n: u64) -> SortedMap<Id, Document> {
    let mut docs = SortedMap::new();
    for id in 0..n {
        let mut doc = Document::new(Id::U64(id));
        doc.attributes.insert("even".to_string(), Value::Bool(id % 2 == 0));
        doc.vectors.insert("v".to_string(), VectorValue::F32(bits(&[id as f32, 0.0])));
        docs.insert(Id::U64(id), doc);
    }
    docs
}

fn index(n: u64, clusters: usize) -> VectorIndex {
    let entries = (0..n).map(|i| entry(i, i as f32, 0.0)).collect();
    VectorIndex::build_with_cluster_count(
        "v".into(),
        DistanceMetric::L2,
        2,
        entries,
        &documents(n),
        clusters,
        l2,
        means,
    )
    .unwrap()
    .unwrap()
}

fn ids(hits: &[sana::vector::VectorHit]) -> Vec<u64> {
    hits.iter()
        .map(|h| match h.id {
            Id::U64(n) => n,
            _ => panic!("numbers only"),
        })
        .collect()
}

#[test]
fn nearest_vectors_come_first() {
    let index = index(12, 3);
    assert_eq!(index.row_count(), 12);
    let hits = index.search(&bits(&[4.2, 0.0]), 3, Some(3), None, l2).unwrap();
    assert_eq!(ids(&hits), vec![4, 5, 3]);
    assert!(index.search(&bits(&[1.0]), 1, None, None, l2).is_err());
    assert!(index.search(&bits(&[f32::NAN, 0.0]), 1, None, None, l2).is_err());
    assert!(index.check_format().is_ok());
}

#[test]
fn filters_keep_rows_out_before_scoring() {
    let index = index(12, 3);
    let filter = FilterExpr::Eq { column: "even".into(), value: Value::Bool(true) };
    let mask = native_filter_mask(&index, &filter).unwrap();
    let hits = index
        .search_with_filter(&bits(&[5.0, 0.0]), 2, Some(3), None, Some(&mask), l2)
        .unwrap();
    assert_eq!(ids(&hits), vec![4, 6]);
    let none = index
        .search_with_filter(&bits(&[5.0, 0.0]), 2, Some(3), None, Some(&index.empty_filter_mask()), l2)
        .unwrap();
    assert!(none.is_empty());
    let all = index
        .search_with_filter(&bits(&[5.0, 0.0]), 2, Some(3), None, Some(&index.all_filter_mask()), l2)
        .unwrap();
    assert_eq!(ids(&all), vec![5, 4]);
}

#[test]
fn masks_are_row_sets() {
    let mut low = VectorFilterMask::empty(vec![70, 3]);
    low.unite_cluster(0, &vec![0b101, 0]);
    let all = VectorFilterMask::all(vec![70, 3]);
    assert!(low.allows(0, 0) && !low.allows(0, 1) && low.allows(0, 2));
    assert!(low.cluster_has_any(0) && !low.cluster_has_any(1));
    let rest = low.not();
    assert!(!rest.allows(0, 0) && rest.allows(0, 1) && rest.allows(0, 69) && rest.allows(1, 2));
    assert!(low.or(&rest) == all);
    assert!(low.and(&rest) == VectorFilterMask::empty(vec![70, 3]));
}

#[test]
fn approximate_answers_are_current() {
    let base = index(12, 3);
    let versions = VectorVersionMap::from_index(&base);
    assert!(versions.is_live(&Id::U64(4), 1));
    assert!(!versions.is_live(&Id::U64(4), 2));
    let query = ApproxVectorQuery {
        column: "v".into(),
        vector: bits(&[4.2, 0.0]),
        k: 2,
        probes: Some(3),
        metric: None,
    };
    // Document 4 has moved since it was indexed.
    let mut touched = SortedSet::new();
    touched.insert(Id::U64(4));
    let mut docs = documents(12);
    let mut moved = Document::new(Id::U64(4));
    moved.vectors.insert("v".to_string(), VectorValue::F32(bits(&[100.0, 0.0])));
    docs.insert(Id::U64(4), moved);
    let found = ann_search(
        &query, DistanceMetric::L2, None, &base, &vec![], Some(&versions), &touched, l2,
    )
    .unwrap();
    let AnnSearch::Found { live, needed } = found else { panic!("answerable") };
    assert!(needed.contains(&Id::U64(4)));
    let rows = ann_answer(
        &query, DistanceMetric::L2, 2, None, None, live, &touched, &docs, l2,
    )
    .unwrap();
    assert_eq!(rows.len(), 2);
    assert_eq!(rows[0].id, Id::U64(5));
    assert_eq!(rows[1].id, Id::U64(3));
}

#[test]
fn large_clusters_are_split_and_small_ones_merged() {
    let base = index(12, 3);
    let versions = VectorVersionMap::from_index(&base);
    let tight = VectorMaintenanceThresholds {
        min_posting_rows: 0,
        max_posting_rows: 2,
        reassign_neighborhood: 2,
    };
    let plan = base.plan_maintenance(&vec![], Some(&versions), tight, l2).unwrap();
    assert!(!plan.tasks.is_empty());
    assert!(plan.tasks.iter().all(|t| t.action == VectorMaintenanceAction::Split));
    let delta = base
        .build_local_rebuild_delta(
            &vec![], &versions, &plan.tasks[0], 2, &documents(12), l2, means,
        )
        .unwrap()
        .unwrap();
    assert_eq!(
        delta.index.row_count(),
        delta.rebuilt_ids.len()
    );
    let loose = VectorMaintenanceThresholds {
        min_posting_rows: 100,
        max_posting_rows: 1_000,
        reassign_neighborhood: 2,
    };
    let plan = base.plan_maintenance(&vec![], Some(&versions), loose, l2).unwrap();
    assert!(plan.tasks.iter().all(|t| t.action == VectorMaintenanceAction::Merge));
}

#[test]
fn half_precision_widens_exactly() {
    assert_eq!(widen(0x3c00), 1.0f32.to_bits());
    assert_eq!(widen(0xc000), (-2.0f32).to_bits());
    assert_eq!(widen(0x0001), 5.960_464_5e-8_f32.to_bits());
    assert_eq!(widen(0x7bff), 65504.0f32.to_bits());
    assert_eq!(widen(0x7c00), f32::INFINITY.to_bits());
    assert_eq!(widen(0x8000), (-0.0f32).to_bits());
    assert_eq!(
        vector_to_f32(&VectorValue::F16(vec![0x3800])),
        bits(&[0.5])
    );
    assert!(is_all_finite(&bits(&[1.0, -2.0])));
    assert!(!is_all_finite(&bits(&[f32::INFINITY])));
}

#[test]
fn recall_counts_what_both_found() {
    let exact = vec![Id::U64(1), Id::U64(2), Id::U64(3)];
    let close = vec![Id::U64(3), Id::U64(9), Id::U64(1)];
    assert_eq!(recall_at(&exact, &close, 3), (2, 3));
    let sample = recall_sample(Id::U64(1), exact, close, 3);
    assert_eq!(sample.recall, (2, 3));
    assert_eq!(sample.exhaustive_count, 3);
    assert_eq!(recall_counts(&vec![sample]).0, 3);
}

#[test]
fn thresholds_follow_the_even_share() {
    let t = index(12, 3).maintenance_thresholds();
    assert_eq!((t.min_posting_rows, t.max_posting_rows), (2, 8));
    let t = index(1, 1).maintenance_thresholds();
    assert_eq!((t.min_posting_rows, t.max_posting_rows), (1, 2));
}

#[test]
fn appended_vectors_join_the_nearest_centroid() {
    let centroids = vec![bits(&[0.0, 0.0]), bits(&[10.0, 0.0])];
    let entries = vec![entry(1, 9.0, 0.0), entry(0, 1.0, 0.0), entry(2, 11.0, 0.0)];
    let build = |centroids: &Vec<Vec<u32>>, entries: Vec<VectorEntry>| {
        VectorIndex::build_append(
            "v".into(),
            DistanceMetric::L2,
            2,
            centroids.clone(),
            entries,
            &documents(12),
            l2,
        )
    };
    let appended = build(&centroids, entries.clone()).unwrap().unwrap();
    assert_eq!(appended.centroids, centroids);
    assert_eq!(appended.row_count(), 3);
    let hits = appended.search(&bits(&[10.0, 0.0]), 9, Some(1), None, l2).unwrap();
    assert_eq!(ids(&hits), vec![1, 2]);
    assert!(build(&centroids, vec![]).unwrap().is_none());
    assert!(matches!(build(&vec![], entries.clone()), Err(Error::Corrupt(_))));
    assert!(matches!(build(&vec![bits(&[1.0])], entries), Err(Error::InvalidQuery(_))));
}

#[test]
fn reassigning_moves_vectors_to_their_nearest_cluster() {
    let base = index(12, 3);
    let versions = VectorVersionMap::from_index(&base);
    let tight = VectorMaintenanceThresholds {
        min_posting_rows: 0,
        max_posting_rows: 2,
        reassign_neighborhood: 2,
    };
    let plan = base.plan_maintenance(&vec![], Some(&versions), tight, l2).unwrap();
    // Every vector is where it belongs, so nothing moves.
    let settled = base
        .build_reassignment_delta(&vec![], &versions, &plan.tasks[0], 2, &documents(12), l2)
        .unwrap();
    assert!(settled.is_none());
    // With the signs of the distances turned, the farthest cluster is the best.
    let far = |a: &Vec<u32>, b: &Vec<u32>, m: DistanceMetric| {
        score(a, b, m, calc).map(|s| s ^ 0x8000_0000)
    };
    let delta = base
        .build_reassignment_delta(&vec![], &versions, &plan.tasks[0], 2, &documents(12), far)
        .unwrap()
        .unwrap();
    assert!(!delta.reassignments.is_empty());
    assert_eq!(delta.index.row_count(), delta.reassignments.len());
    for moved in &delta.reassignments {
        assert_ne!(moved.from_cluster_id, moved.to_cluster_id);
        assert_eq!((moved.previous_version, moved.new_version), (1, 2));
        assert_eq!(delta.version_map.live_version(&moved.id), Some(2));
    }
}

#[test]
fn a_query_without_length_has_no_cosine_even_where_nothing_is_probed() {
    let index = index(12, 3);
    let none = index.empty_filter_mask();
    let search = |query: &[f32], metric| {
        index.search_with_filter(&bits(query), 2, None, Some(metric), Some(&none), l2)
    };
    assert!(matches!(
        search(&[0.0, 0.0], DistanceMetric::Cosine),
        Err(Error::InvalidQuery(_))
    ));
    assert!(search(&[1.0, 0.0], DistanceMetric::Cosine).unwrap().is_empty());
    assert!(search(&[0.0, 0.0], DistanceMetric::L2).unwrap().is_empty());
}

#[test]
fn plans_fail_with_the_error_of_the_scores() {
    let base = index(12, 3);
    let odd = |a: &Vec<u32>, b: &Vec<u32>, m: DistanceMetric| {
        if base.centroids.contains(a) && base.centroids.contains(b) {
            return Err(Error::Codec("no score".into()));
        }
        score(a, b, m, calc)
    };
    let tight = VectorMaintenanceThresholds {
        min_posting_rows: 0,
        max_posting_rows: 2,
        reassign_neighborhood: 2,
    };
    let failed = base.plan_maintenance(&vec![], None, tight, odd);
    assert!(matches!(failed, Err(Error::Codec(m)) if m == "no score"));
    // Where no cluster calls for work its neighbors are not asked for.
    let calm = VectorMaintenanceThresholds {
        min_posting_rows: 0,
        max_posting_rows: 100,
        reassign_neighborhood: 2,
    };
    assert!(base.plan_maintenance(&vec![], None, calm, odd).unwrap().tasks.is_empty());
}

#[test]
fn unindexed_documents_are_found_by_exact_search() {
    let mut schema = Schema::default();
    let vectors = [[1.0, 0.0], [0.0, 1.0], [-1.0, 0.0]];
    let mut ops = Vec::new();
    let mut rows = Vec::new();
    for (i, v) in vectors.iter().enumerate() {
        let id = Id::U64(i as u64 + 1);
        let mut document = Document::new(id.clone());
        document.vectors.insert("v".to_string(), VectorValue::F32(bits(v)));
        ops.push(WalOp::Upsert { id: id.clone(), document: copy_document(&document) });
        rows.push(QueryRow { id, document, score: None });
    }
    assert!(schema.infer_and_validate_ops(&ops).unwrap());
    let query = ExactVectorQuery {
        column: "v".into(),
        vector: bits(&[1.0, 0.0]),
        k: 2,
        metric: None,
    };
    let found = exact_nearest(rows, &schema, &query, Some(5), l2).unwrap();
    let ids: Vec<Id> = found.iter().map(|row| row.id.clone()).collect();
    assert_eq!(ids, [Id::U64(1), Id::U64(2)]);
    let scores: Vec<f32> = found.iter().map(|row| f32::from_bits(row.score.unwrap())).collect();
    assert_eq!(scores, [1.0, 0.0]);
}

#[test]
fn only_probed_clusters_need_their_vectors() {
    let mut index = index(8, 2);
    let near = |index: &VectorIndex, cluster: usize| {
        let query = index.centroids[cluster].clone();
        index.search(&query, 3, Some(1), None, l2)
    };
    assert!(near(&index, 0).is_ok());
    assert!(near(&index, 1).is_ok());
    index.postings.truncate(1);
    assert!(near(&index, 0).is_ok());
    assert!(matches!(
        near(&index, 1),
        Err(Error::Corrupt(m)) if m == "vector posting id out of bounds"
    ));
}

#[test]
fn entries_of_one_document_keep_their_order() {
    let entries = [(2, 5), (1, 7), (2, 4), (1, 6), (2, 9)]
        .map(|(id, version)| VectorEntry { version, ..entry(id, 1.0, 0.0) })
        .to_vec();
    let index = VectorIndex::build_with_cluster_count(
        "v".into(),
        DistanceMetric::L2,
        2,
        entries,
        &documents(3),
        1,
        l2,
        means,
    )
    .unwrap()
    .unwrap();
    let versions: Vec<u64> = index.postings[0].vectors.iter().map(|e| e.version).collect();
    assert_eq!(versions, [7, 6, 5, 4, 9]);
}

#[test]
fn stored_vectors_of_another_dimension_are_corrupt() {
    let mut schema = Schema::default();
    let row = |id: u64, v: &[f32]| {
        let mut document = Document::new(Id::U64(id));
        document.vectors.insert("v".to_string(), VectorValue::F32(bits(v)));
        QueryRow { id: Id::U64(id), document, score: None }
    };
    let ops = vec![WalOp::Upsert {
        id: Id::U64(1),
        document: copy_document(&row(1, &[1.0, 0.0]).document),
    }];
    schema.infer_and_validate_ops(&ops).unwrap();
    let query = ExactVectorQuery {
        column: "v".into(),
        vector: bits(&[1.0, 0.0]),
        k: 2,
        metric: None,
    };
    let rows = vec![row(1, &[1.0, 0.0]), row(2, &[1.0])];
    assert!(matches!(
        exact_nearest(rows, &schema, &query, None, l2),
        Err(Error::Corrupt(m)) if m == "stored vector 'v' for U64(2) has dim 1, expected 2"
    ));
    let query = ExactVectorQuery { vector: bits(&[1.0]), ..query };
    assert!(matches!(
        exact_nearest(vec![], &schema, &query, None, l2),
        Err(Error::InvalidQuery(m)) if m == "query vector for 'v' has dim 1, expected 2"
    ));
}
