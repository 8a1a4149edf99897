use atlaswiki::beam::{DistanceTable, VisitedTracker};
use atlaswiki::hnsw::{FastRng, HnswConfig, HnswIndex};
use atlaswiki::recall::{BruteForceScan, Sq8Vector, VectorEvalSuite};

/// A quantised vector with one over its length.
struct Quantised {
    vector: Sq8Vector,
    inv_norm: f32,
}

fn encode(raw: &[f32]) -> Quantised {
    let max_abs = raw.iter().fold(0.0f32, |acc, &x| acc.max(x.abs()));
    let scale = if max_abs > 1e-12 { max_abs / 127.0 } else { 1.0 / 127.0 };
    let data: Vec<i8> =
        raw.iter().map(|&x| (x / scale).round().clamp(-128.0, 127.0) as i8).collect();
    let vector = Sq8Vector { data };
    let norm_sq = vector.norm_sq();
    let inv_norm = if norm_sq > 0 { 1.0 / (norm_sq as f64).sqrt() as f32 } else { 1.0 };
    Quantised { vector, inv_norm }
}

fn distance(a: &Quantised, b: &Quantised) -> u32 {
    (1.0 - cosine(a, b)).max(0.0).to_bits()
}

fn distance_to(a: &Quantised, query: &[f32]) -> u32 {
    let mut dot = 0.0f32;
    for (&q, &d) in query.iter().zip(a.vector.data.iter()) {
        dot += q * (d as f32);
    }
    (1.0 - (dot * a.inv_norm).clamp(-1.0, 1.0)).max(0.0).to_bits()
}

/// Distances between all stored vectors, and from each of them to each query.
fn table(stored: &[Quantised], queries: &[Vec<f32>]) -> DistanceTable {
    let n = stored.len();
    let all = n + queries.len();
    let mut rows = vec![vec![0u32; all]; all];
    for i in 0..n {
        for j in i + 1..n {
            let d = distance(&stored[i], &stored[j]);
            rows[i][j] = d;
            rows[j][i] = d;
        }
        for (k, q) in queries.iter().enumerate() {
            rows[i][n + k] = distance_to(&stored[i], q);
        }
    }
    DistanceTable { rows }
}

fn unit_fraction(rng: &mut FastRng) -> f64 {
    rng.next_fraction() as f64 / (1u64 << 53) as f64
}

fn gaussian(rng: &mut FastRng) -> (f32, f32) {
    let u1 = unit_fraction(rng).max(1e-15);
    let u2 = unit_fraction(rng);
    let r = (-2.0 * u1.ln()).sqrt();
    let theta = 2.0 * std::f64::consts::PI * u2;
    ((r * theta.cos()) as f32, (r * theta.sin()) as f32)
}

fn unit_vectors(count: usize, dim: usize, seed: u64) -> Vec<Vec<f32>> {
    let mut rng = FastRng::new(seed);
    (0..count)
        .map(|_| {
            let mut v = Vec::with_capacity(dim);
            for _ in 0..dim / 2 {
                let (a, b) = gaussian(&mut rng);
                v.push(a);
                v.push(b);
            }
            let norm = v.iter().map(|x: &f32| x * x).sum::<f32>().sqrt().max(1e-12);
            v.iter().map(|x| x / norm).collect()
        })
        .collect()
}

fn drawn_level(rng: &mut FastRng, config: &HnswConfig) -> usize {
    let r = unit_fraction(rng).max(1e-15);
    let ml = 1.0 / (config.m as f64).ln();
    config.level_of((-r.ln() * ml).floor() as usize)
}

fn cosine(a: &Quantised, b: &Quantised) -> f32 {
    (a.vector.dot(&b.vector) as f32 * a.inv_norm * b.inv_norm).clamp(-1.0, 1.0)
}

/// The mean and the largest error of the cosines of pairs.
fn reconstruction_error(vectors: &[Vec<f32>], num_pairs: usize, seed: u64) -> (f32, f32) {
    let n = vectors.len();
    let mut rng = FastRng::new(seed);
    let quantised: Vec<Quantised> = vectors.iter().map(|v| encode(v)).collect();
    let mut total = 0.0f64;
    let mut largest = 0.0f32;
    for _ in 0..num_pairs {
        let i = (rng.next_u64() as usize) % n;
        let mut j = (rng.next_u64() as usize) % n;
        if i == j {
            j = (j + 1) % n;
        }
        let exact: f32 = vectors[i].iter().zip(vectors[j].iter()).map(|(&a, &b)| a * b).sum();
        let err = (exact - cosine(&quantised[i], &quantised[j])).abs();
        total += err as f64;
        largest = largest.max(err);
    }
    ((total / num_pairs as f64) as f32, largest)
}

#[test]
fn test_sq8_quantization_and_reconstruction_error() {
    // Generate 1,000 synthetic 384-dimensional unit vectors
    let vectors = unit_vectors(1000, 384, 42);

    // Verify vector norms are ~1.0
    for v in &vectors {
        let norm_sq: f32 = v.iter().map(|&x| x * x).sum();
        assert!((norm_sq - 1.0).abs() < 1e-4);
    }

    // Evaluate average cosine reconstruction error across 1,000 vector pairs
    let (avg_error, max_error) = reconstruction_error(&vectors, 1000, 12345);

    println!("SQ8 reconstruction error: avg = {:.6}, max = {:.6}", avg_error, max_error);

    // Assert average cosine reconstruction error < 0.02
    assert!(avg_error < 0.02, "Expected avg_error < 0.02, got {}", avg_error);

    // In fact, SQ8 symmetric reconstruction error should be < 0.005
    assert!(avg_error < 0.005);
}

#[test]
fn test_sq8_asymmetric_reconstruction() {
    let raw = vec![0.5f32, -0.5, 0.5, -0.5];
    let sq8 = encode(&raw);
    let decoded: Vec<f32> = sq8.vector.data.iter().map(|&q| q as f32 * sq8.inv_norm).collect();

    // Cosine similarity between raw and decoded should be > 0.999
    let cos: f32 = raw.iter().zip(decoded.iter()).map(|(&a, &b)| a * b).sum();
    assert!(cos > 0.999);

    // The quantised vector is as long as its own norm says, and turned to itself
    assert_eq!(sq8.vector.dot(&sq8.vector) as i64, sq8.vector.norm_sq());
    assert!((cosine(&sq8, &sq8) - 1.0).abs() < 1e-5);

    // Asymmetric similarity query
    let asym_cos = 1.0 - f32::from_bits(distance_to(&sq8, &raw));
    assert!((asym_cos - 1.0).abs() < 0.01);
}

#[test]
fn test_hnsw_edge_cases() {
    let mut index = HnswIndex::with_default_config();
    let mut rng = FastRng::new(42);

    // 1. Search empty index
    let dummy_query = vec![0.0f32; 384];
    let empty = table(&[], &[dummy_query]);
    assert!(index.search(&empty, 0, 10, 16).is_empty());

    // 2. Single vector
    let v0 = vec![1.0f32; 384];
    let norm = (384.0f32).sqrt();
    let v0_norm: Vec<f32> = v0.into_iter().map(|x| x / norm).collect();
    let one = table(&[encode(&v0_norm)], &[v0_norm.clone()]);
    let level = drawn_level(&mut rng, index.config());
    index.insert(0, level, &one);

    let res = index.search(&one, 1, 10, 16);
    assert_eq!(res.len(), 1);
    assert_eq!(res[0].0, 0);
    assert!((1.0 - f32::from_bits(res[0].1) - 1.0).abs() < 0.01);

    // 3. Duplicate identical vectors
    let two = table(&[encode(&v0_norm), encode(&v0_norm)], &[v0_norm.clone()]);
    let level = drawn_level(&mut rng, index.config());
    index.insert(1, level, &two);
    let res = index.search(&two, 2, 10, 16);
    assert_eq!(res.len(), 2);
}

#[test]
fn test_hnsw_recall_against_brute_force() {
    let dim = 384;
    let n = 1000;
    let num_queries = 20;

    let dataset = unit_vectors(n, dim, 100);
    let queries = unit_vectors(num_queries, dim, 200);
    let stored: Vec<Quantised> = dataset.iter().map(|v| encode(v)).collect();
    let metric = table(&stored, &queries);

    let mut config = HnswConfig::default();
    config.ef_construction = 64;
    config.ef_search = 64;
    config.m = 16;
    config.m0 = 32;

    let mut index = HnswIndex::new(config);
    let mut rng = FastRng::new(42);
    for i in 0..n {
        let level = drawn_level(&mut rng, &config);
        index.insert(i, level, &metric);
    }
    assert_eq!(index.len(), n);

    let mut recall_10_sum = 0.0f32;
    let mut recall_50_sum = 0.0f32;

    for (k, q) in queries.iter().enumerate() {
        let similarities: Vec<u32> = dataset
            .iter()
            .map(|v| {
                let sim: f32 = v.iter().zip(q.iter()).map(|(&a, &b)| a * b).sum();
                (sim.clamp(-1.0, 1.0) + 2.0).to_bits()
            })
            .collect();
        let exact: Vec<usize> =
            BruteForceScan::search(&similarities, 50).iter().map(|hit| hit.0).collect();
        let ann: Vec<usize> = index.search(&metric, n + k, 50, 64).iter().map(|hit| hit.0).collect();

        let (hits, of) = VectorEvalSuite::compute_recall(&ann, &exact, 10);
        recall_10_sum += hits as f32 / of as f32;
        let (hits, of) = VectorEvalSuite::compute_recall(&ann, &exact, 50);
        recall_50_sum += hits as f32 / of as f32;
    }

    let avg_r10 = recall_10_sum / (num_queries as f32);
    let avg_r50 = recall_50_sum / (num_queries as f32);

    println!("HNSW test: Recall@10 = {:.4}, Recall@50 = {:.4}", avg_r10, avg_r50);

    // High recall expected for ef_search=64
    assert!(avg_r10 >= 0.85, "Expected Recall@10 >= 0.85, got {}", avg_r10);
    assert!(avg_r50 >= 0.85, "Expected Recall@50 >= 0.85, got {}", avg_r50);
}

/// Points on a line, at a distance of one from the next.
fn line(n: usize) -> DistanceTable {
    let rows = (0..n)
        .map(|i| (0..n).map(|j| if i < j { (j - i) as u32 } else { (i - j) as u32 }).collect())
        .collect();
    DistanceTable { rows }
}

#[test]
fn a_roomy_search_finds_everything_in_order() {
    let metric = line(21);
    let mut index = HnswIndex::with_default_config();
    for i in 0..20 {
        index.insert(i, if i % 7 == 3 { 1 } else { 0 }, &metric);
    }
    let found = index.search(&metric, 20, 20, 64);
    let nodes: Vec<usize> = found.iter().map(|hit| hit.0).collect();
    assert_eq!(nodes, (0..20).rev().collect::<Vec<usize>>());
    assert_eq!(found[0].1, 1);
    assert_eq!(found[19].1, 20);
    assert_eq!(index.search(&metric, 20, 3, 8).len(), 3);
}

#[test]
fn neighbour_lists_stay_short_and_sound() {
    let metric = line(40);
    let mut config = HnswConfig::default();
    config.m = 2;
    config.m0 = 3;
    let mut index = HnswIndex::new(config);
    for i in 0..40 {
        index.insert(i, i % 3, &metric);
    }
    assert_eq!(index.max_level, 2);
    assert_eq!(index.entry_point, Some(2));
    for (i, node) in index.nodes.iter().enumerate() {
        assert_eq!(node.neighbors.len(), node.level + 1);
        for (layer, near) in node.neighbors.iter().enumerate() {
            assert!(near.len() <= if layer == 0 { 3 } else { 2 });
            for (k, x) in near.iter().enumerate() {
                assert_ne!(*x, i);
                assert!(index.nodes[*x].level >= layer);
                assert!(!near[..k].contains(x));
            }
        }
    }
}

#[test]
fn levels_stay_below_the_number_of_layers() {
    let config = HnswConfig::default();
    assert_eq!(config.level_of(0), 0);
    assert_eq!(config.level_of(15), 15);
    assert_eq!(config.level_of(16), 15);
    assert_eq!(config.level_of(usize::MAX), 15);
    assert_eq!(config.width(0), 32);
    assert_eq!(config.width(1), 16);
}

#[test]
fn the_level_generator_is_reproducible() {
    let mut rng = FastRng::new(42);
    assert_eq!(rng.next_u64(), 6255019084209693600);
    assert_eq!(rng.next_u64(), 14430073426741505498);
    assert_eq!(rng.next_u64(), 14575455857230217846);
    let mut zero = FastRng::new(0);
    assert_eq!(zero.next_u64(), 17758516065497867581);
    let mut fractions = FastRng::new(42);
    assert_eq!(fractions.next_fraction(), 6255019084209693600 >> 11);
}

#[test]
fn marks_are_wiped_all_at_once() {
    let mut seen = VisitedTracker::new(2);
    assert!(!seen.is_visited(0));
    seen.mark_visited(1);
    seen.mark_visited(5);
    assert!(seen.is_visited(1));
    assert!(!seen.is_visited(5));
    seen.ensure_capacity(6);
    seen.mark_visited(5);
    assert!(seen.is_visited(1) && seen.is_visited(5));
    seen.advance();
    assert!(!seen.is_visited(1) && !seen.is_visited(5));
}

#[test]
fn products_of_quantised_vectors() {
    let a = Sq8Vector { data: vec![127, -128, 0, 3] };
    let b = Sq8Vector { data: vec![2, 1, 55, -4] };
    assert_eq!(a.dot(&b), 254 - 128 - 12);
    assert_eq!(b.dot(&a), a.dot(&b));
    assert_eq!(a.norm_sq(), 127 * 127 + 128 * 128 + 9);
    assert_eq!(Sq8Vector { data: vec![] }.norm_sq(), 0);
}

#[test]
fn recall_counts_what_was_found() {
    assert_eq!(VectorEvalSuite::compute_recall(&vec![1, 2, 3], &vec![3, 1, 9], 3), (2, 3));
    assert_eq!(VectorEvalSuite::compute_recall(&vec![1, 2, 3], &vec![3, 1, 9], 1), (0, 1));
    assert_eq!(VectorEvalSuite::compute_recall(&vec![1], &vec![4, 1], 10), (1, 10));
    assert_eq!(VectorEvalSuite::compute_recall(&vec![7], &vec![], 10), (1, 1));
    let exact = vec![5, 6, 7];
    assert_eq!(VectorEvalSuite::compute_recall(&exact, &exact, 3), (3, 3));
}

#[test]
fn latency_percentiles() {
    let latencies: Vec<u64> = (1..=100).rev().collect();
    assert_eq!(VectorEvalSuite::percentile(&latencies, 50), 51);
    assert_eq!(VectorEvalSuite::percentile(&latencies, 95), 96);
    assert_eq!(VectorEvalSuite::percentile(&vec![9, 3, 5], 99), 9);
}

#[test]
fn an_exact_scan_keeps_the_order_of_equals() {
    assert_eq!(BruteForceScan::search(&vec![4, 9, 4, 1], 3), vec![(1, 9), (0, 4), (2, 4)]);
    assert!(BruteForceScan::search(&vec![4, 9], 0).is_empty());
}
