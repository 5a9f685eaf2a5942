use persistencelandscape::{generate, BirthDeath, Extended, PointOrd};

// Points are on the half-unit grid: `PointOrd { x, y }` stands for (x / 2, y / 2).

fn pair(b: i32, d: i32) -> BirthDeath {
    BirthDeath { birth: Extended::Finite(b), death: Extended::Finite(d) }
}

fn pt(x: i64, y: i64) -> PointOrd {
    PointOrd { x, y }
}

fn tent_at(b: i32, d: i32, x: f64) -> f64 {
    let (b, d) = (2.0 * b as f64, 2.0 * d as f64);
    let v = (x - b).min(d - x);
    if v > 0.0 { v } else { 0.0 }
}

fn layer_at(layer: &[PointOrd], x: f64) -> f64 {
    for w in layer.windows(2) {
        let (p, q) = (w[0], w[1]);
        let (px, qx) = (p.x as f64, q.x as f64);
        if px <= x && x <= qx && px < qx {
            return p.y as f64 + (q.y - p.y) as f64 * (x - px) / (qx - px);
        }
    }
    0.0
}

fn check_against_ranks(pairs: &[(i32, i32)], k: usize) {
    let input: Vec<BirthDeath> = pairs.iter().map(|&(b, d)| pair(b, d)).collect();
    let layers = generate(input, k);
    assert_eq!(layers.len(), k);
    let lo = pairs.iter().map(|p| 2 * p.0).min().unwrap_or(0) - 2;
    let hi = pairs.iter().map(|p| 2 * p.1).max().unwrap_or(0) + 2;
    for layer in &layers {
        for w in layer.windows(2) {
            assert!(w[0].x <= w[1].x, "layer not in increasing x: {:?}", layer);
        }
    }
    let mut x2 = 2 * lo;
    while x2 <= 2 * hi {
        let x = x2 as f64 / 2.0;
        let mut values: Vec<f64> = pairs.iter().map(|&(b, d)| tent_at(b, d, x)).collect();
        values.sort_by(|a, b| b.partial_cmp(a).unwrap());
        for (i, layer) in layers.iter().enumerate() {
            let expected = values.get(i).copied().unwrap_or(0.0);
            let got = layer_at(layer, x);
            assert!((expected - got).abs() < 1e-9, "layer {} at x={}: expected {}, got {} ({:?})", i, x, expected, got, layers);
        }
        x2 += 1;
    }
}

#[test]
fn single_tent() {
    let layers = generate(vec![pair(0, 4)], 1);
    assert_eq!(layers, vec![vec![pt(0, 0), pt(4, 4), pt(8, 0)]]);
}

#[test]
fn nested_tents() {
    let layers = generate(vec![pair(0, 4), pair(1, 3)], 2);
    assert_eq!(layers[0], vec![pt(0, 0), pt(4, 4), pt(8, 0)]);
    assert_eq!(layers[1], vec![pt(2, 0), pt(4, 2), pt(6, 0)]);
}

#[test]
fn crossing_tents() {
    let layers = generate(vec![pair(0, 4), pair(2, 6)], 2);
    assert_eq!(layers[0], vec![pt(0, 0), pt(4, 4), pt(6, 2), pt(8, 4), pt(12, 0)]);
    assert_eq!(layers[1], vec![pt(4, 0), pt(6, 2), pt(8, 0)]);
}

#[test]
fn crossing_at_half_units() {
    let layers = generate(vec![pair(0, 3), pair(1, 5)], 2);
    assert_eq!(layers[0], vec![pt(0, 0), pt(3, 3), pt(4, 2), pt(6, 4), pt(10, 0)]);
    assert_eq!(layers[1], vec![pt(2, 0), pt(4, 2), pt(6, 0)]);
}

#[test]
fn non_finite_pair_is_dropped() {
    let with_inf = vec![
        BirthDeath { birth: Extended::Finite(0), death: Extended::NonFinite },
        pair(1, 3),
    ];
    let layers = generate(with_inf, 1);
    assert_eq!(layers, vec![vec![pt(2, 0), pt(4, 2), pt(6, 0)]]);
    assert_eq!(layers, generate(vec![pair(1, 3)], 1));
}

#[test]
fn non_finite_birth_is_dropped() {
    let input = vec![
        pair(0, 4),
        BirthDeath { birth: Extended::NonFinite, death: Extended::Finite(2) },
        pair(2, 6),
    ];
    assert_eq!(generate(input, 3), generate(vec![pair(0, 4), pair(2, 6)], 3));
}

#[test]
fn zero_layers() {
    assert!(generate(vec![pair(0, 4), pair(1, 3)], 0).is_empty());
}

#[test]
fn empty_diagram() {
    assert_eq!(generate(vec![], 2), vec![Vec::<PointOrd>::new(), Vec::new()]);
}

#[test]
fn more_layers_than_overlap() {
    let layers = generate(vec![pair(0, 2), pair(3, 5)], 3);
    assert_eq!(layers[0], vec![pt(0, 0), pt(2, 2), pt(4, 0), pt(6, 0), pt(8, 2), pt(10, 0)]);
    assert!(layers[1].is_empty());
    assert!(layers[2].is_empty());
}

#[test]
fn repeated_runs_agree() {
    let input = vec![pair(0, 4), pair(2, 6), pair(1, 9), pair(3, 4)];
    assert_eq!(generate(input.clone(), 4), generate(input.clone(), 4));
}

#[test]
fn negative_endpoints() {
    check_against_ranks(&[(-5, -1), (-3, 2), (-10, 10)], 3);
}

#[test]
fn layers_match_rank_oracle_small() {
    check_against_ranks(&[(0, 4), (2, 6)], 2);
    check_against_ranks(&[(0, 10), (1, 3), (2, 8), (5, 12)], 4);
    check_against_ranks(&[(0, 7), (3, 11), (5, 9), (6, 20), (13, 15)], 5);
}

#[test]
fn layers_match_rank_oracle_generated() {
    let mut seed: u64 = 12345;
    let mut next = |m: u64| {
        seed = seed.wrapping_mul(6364136223846793005).wrapping_add(1442695040888963407);
        (seed >> 33) % m
    };
    for _ in 0..500 {
        // endpoints in general position: all of them distinct
        let n = 1 + next(7) as usize;
        let mut ends: Vec<i32> = Vec::new();
        while ends.len() < 2 * n {
            let v = next(60) as i32 - 20;
            if !ends.contains(&v) {
                ends.push(v);
            }
        }
        let pairs: Vec<(i32, i32)> = ends
            .chunks(2)
            .map(|c| (c[0].min(c[1]), c[0].max(c[1])))
            .collect();
        check_against_ranks(&pairs, n + 1);
    }
}

#[test]
fn layers_past_pair_count_empty() {
    let layers = generate(vec![pair(0, 6), pair(1, 5)], 5);
    assert_eq!(layers.len(), 5);
    assert!(!layers[0].is_empty());
    assert!(!layers[1].is_empty());
    assert!(layers[2..].iter().all(|l| l.is_empty()));
}

#[test]
fn three_tents_two_crossings() {
    let layers = generate(vec![pair(0, 4), pair(2, 6), pair(4, 8)], 3);
    assert_eq!(layers[0], vec![pt(0, 0), pt(4, 4), pt(6, 2), pt(8, 4), pt(10, 2), pt(12, 4), pt(16, 0)]);
    assert_eq!(layers[1], vec![pt(4, 0), pt(6, 2), pt(8, 0), pt(8, 0), pt(10, 2), pt(12, 0)]);
    assert!(layers[2].is_empty());
}

#[test]
fn shared_birth_swaps_at_apex() {
    let layers = generate(vec![pair(0, 2), pair(0, 3)], 2);
    assert_eq!(layers[0], vec![pt(0, 0), pt(2, 2), pt(2, 2), pt(3, 3), pt(6, 0)]);
    assert_eq!(layers[1], vec![pt(0, 0), pt(2, 2), pt(4, 0)]);
    check_against_ranks(&[(0, 2), (0, 3)], 2);
    check_against_ranks(&[(0, 2), (0, 3), (0, 4)], 3);
    check_against_ranks(&[(0, 4), (0, 2), (0, 3), (1, 3)], 4);
}

#[test]
fn layers_match_rank_oracle_with_ties() {
    let mut seed: u64 = 987654321;
    let mut next = |m: u64| {
        seed = seed.wrapping_mul(6364136223846793005).wrapping_add(1442695040888963407);
        (seed >> 33) % m
    };
    for _ in 0..2000 {
        let n = 1 + next(6) as usize;
        let mut pairs = Vec::new();
        for _ in 0..n {
            let b = next(8) as i32;
            let d = b + 1 + next(6) as i32;
            pairs.push((b, d));
        }
        check_against_ranks(&pairs, n + 1);
    }
}
