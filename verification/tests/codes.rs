use sana::arithmetic::Step;
use sana::rabitq::packed::{pack_levels, portable_bit_counts, PackedQuery};
use sana::rabitq::{
    build_index, padded_dim, rotate, transform_seed, walsh_hadamard,
};
use sana::schema::DistanceMetric;
use sana::sorted::SortedMap;
use sana::value::{Document, Id};
use sana::vector::{VectorEntry, VectorIndex};
use sana::error::Error;

fn calc(step: Step) -> u32 {
    let f = f32::from_bits;
    match step {
        Step::Add(a, b) => (f(a) + f(b)).to_bits(),
        Step::Sub(a, b) => (f(a) - f(b)).to_bits(),
        Step::Mul(a, b) => (f(a) * f(b)).to_bits(),
        Step::Div(a, b) => (f(a) / f(b)).to_bits(),
        Step::Ln(a) => f(a).ln().to_bits(),
        Step::Sqrt(a) => f(a).sqrt().to_bits(),
        Step::Count(n) => (n as f32).to_bits(),
        Step::Level { value, lower, delta, noise } => {
            let scaled = (f(value) - f(lower)) / f(delta);
            let random = noise as f32 / (1u32 << 24) as f32;
            (scaled + random).floor().clamp(0.0, 15.0) as u32
        }
    }
}

fn bits(values: &[f32]) -> Vec<u32> {
    values.iter().map(|v| v.to_bits()).collect()
}

#[test]
fn packed_dot_matches_explicit_dequantization() {
    let rotated = [-0.8f32, -0.3, 0.1, 0.7, 0.4, -0.2, 0.9, -0.6];
    let query = PackedQuery::new(&bits(&rotated), 42, calc);
    let code = vec![0b1011_0101u64];

    let packed = f32::from_bits(query.code_dot(&code, calc));
    let explicit = (0..rotated.len())
        .map(|dim| {
            let quantized = query
                .bit_planes
                .iter()
                .enumerate()
                .map(|(bit, plane)| ((plane[0] >> dim) & 1) << bit)
                .sum::<u64>();
            let value = f32::from_bits(query.lower) + f32::from_bits(query.delta) * quantized as f32;
            if code[0] & (1 << dim) != 0 {
                value
            } else {
                -value
            }
        })
        .sum::<f32>()
        / (rotated.len() as f32).sqrt();
    assert!((packed - explicit).abs() < 1e-6);
    let radius = f32::from_bits(query.error_radius(2.0f32.to_bits(), calc));
    assert_eq!(radius, f32::from_bits(query.delta) * 2.0);
}

#[test]
fn selected_bit_counts_match_portable_reference() {
    let rotated = (0..256)
        .map(|dim| (dim as f32 * 0.17).sin())
        .collect::<Vec<_>>();
    let query = PackedQuery::new(&bits(&rotated), 99, calc);
    let code: Vec<u64> = vec![
        0x0123_4567_89ab_cdef,
        0xfedc_ba98_7654_3210,
        0xaaaa_5555_ffff_0000,
        0x1357_9bdf_2468_ace0,
    ];
    let mut ones = 0u64;
    let mut selected = 0u64;
    for (word, c) in code.iter().enumerate() {
        ones += c.count_ones() as u64;
        for (bit, plane) in query.bit_planes.iter().enumerate() {
            selected += ((c & plane[word]).count_ones() as u64) << bit;
        }
    }
    assert_eq!(portable_bit_counts(&code, &query.bit_planes), (ones, selected));
}

#[test]
fn stochastic_query_quantization_is_unbiased_on_average() {
    let rotated = [-0.8f32, -0.3, 0.1, 0.7, 0.4, -0.2, 0.9, -0.6];
    let code = vec![0b1011_0101u64];
    let exact = rotated
        .iter()
        .enumerate()
        .map(|(dim, value)| if code[0] & (1 << dim) != 0 { *value } else { -*value })
        .sum::<f32>()
        / (rotated.len() as f32).sqrt();
    let mean = (0..4096u64)
        .map(|seed| f32::from_bits(PackedQuery::new(&bits(&rotated), seed, calc).code_dot(&code, calc)))
        .sum::<f32>()
        / 4096.0;
    assert!((mean - exact).abs() < 0.002, "mean={mean}, exact={exact}");
}

#[test]
fn shared_bits_add_up_the_chosen_levels() {
    let levels: Vec<u32> = (0..70).map(|i| (i * 7) % 16).collect();
    let planes = pack_levels(&levels);
    assert_eq!(planes.len(), 4);
    let code = vec![0x0f0f_0f0f_0f0f_0f0f_u64, 0x3f];
    let chosen: u64 = (0..70)
        .filter(|d| code[d / 64] >> (d % 64) & 1 == 1)
        .map(|d| levels[d] as u64)
        .sum();
    let (ones, shared) = portable_bit_counts(&code, &planes);
    assert_eq!(ones, 38);
    assert_eq!(shared, chosen);
}

#[test]
fn rotation_keeps_lengths() {
    assert_eq!(padded_dim(0), 1);
    assert_eq!(padded_dim(1), 1);
    assert_eq!(padded_dim(3), 4);
    assert_eq!(padded_dim(64), 64);
    assert_eq!(padded_dim(65), 128);
    assert_eq!(transform_seed("embedding", 3), transform_seed("embedding", 3));
    assert_ne!(transform_seed("embedding", 3), transform_seed("embedding", 4));

    let mut data = bits(&[1.0, 2.0, 3.0, 4.0]);
    walsh_hadamard(&mut data, calc);
    let sums: Vec<f32> = data.iter().map(|b| f32::from_bits(*b)).collect();
    assert_eq!(sums, vec![10.0, -2.0, -4.0, 0.0]);

    let given = [0.3f32, -0.1, 0.7, 0.2, 0.0, 0.9, -0.4, 0.5];
    let mut turned = bits(&given);
    rotate(&mut turned, 7, calc);
    let square = |v: &[f32]| v.iter().map(|x| x * x).sum::<f32>();
    let after: Vec<f32> = turned.iter().map(|b| f32::from_bits(*b)).collect();
    assert!((square(&given) - square(&after)).abs() < 1e-5);
    assert_ne!(turned, bits(&given));
}

fn l2(a: &Vec<u32>, b: &Vec<u32>, _metric: DistanceMetric) -> Result<u32, Error> {
    let d: f32 = a
        .iter()
        .zip(b)
        .map(|(x, y)| (f32::from_bits(*x) - f32::from_bits(*y)).powi(2))
        .sum();
    Ok((-d).to_bits())
}

fn keep(
    _entries: &Vec<VectorEntry>,
    _assignments: &Vec<usize>,
    centroids: &Vec<Vec<u32>>,
    _metric: DistanceMetric,
) -> Vec<Vec<u32>> {
    centroids.clone()
}

#[test]
fn codes_estimate_distances() {
    let docs: SortedMap<Id, Document> = SortedMap::new();
    let entries: Vec<VectorEntry> = (0..6u64)
        .map(|i| VectorEntry {
            id: Id::U64(i),
            vector: bits(&[i as f32, 1.0, -(i as f32), 0.5]),
            local_id: 0,
            version: 1,
        })
        .collect();
    let index = VectorIndex::build_with_cluster_count(
        "v".into(),
        DistanceMetric::L2,
        4,
        entries,
        &docs,
        1,
        l2,
        keep,
    )
    .unwrap()
    .unwrap();
    let coded = build_index(&index, calc).unwrap();
    assert_eq!(coded.padded_dim, 4);
    let cluster = &coded.clusters[0];
    let centroid = &index.centroids[0];
    let query = [0.0f32, 1.0, 0.0, 0.5];
    let residual: Vec<u32> = query
        .iter()
        .zip(centroid)
        .map(|(q, c)| (q - f32::from_bits(*c)).to_bits())
        .collect();
    let rotated = cluster.rotate_query(&residual, coded.padded_dim, calc);
    for code in &cluster.codes {
        let estimate = f32::from_bits(code.estimate_l2_sq(&rotated, calc));
        assert!(estimate.is_finite() && estimate >= 0.0);
    }
    assert_eq!(cluster.codes.len(), 6);

    let mut broken = index;
    broken.postings[0].centroid_id = 9;
    assert!(matches!(build_index(&broken, calc), Err(Error::Corrupt(_))));
}
