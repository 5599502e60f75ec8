use rand::rngs::StdRng;
use rand::SeedableRng;
use sng_dbscan::dbscan::{ClusterError, SNG_DBSCAN};

fn distance(a: &[f64], b: &[f64]) -> f64 {
    a.iter().zip(b).map(|(x, y)| (x - y) * (x - y)).sum::<f64>().sqrt()
}

/// A distance that is not negative keeps its order as a bit pattern.
fn scale(d: f64) -> u64 {
    if d > 0.0 {
        d.to_bits()
    } else {
        0
    }
}

fn measure(points: &[Vec<f64>], samples: &[Vec<usize>]) -> Vec<Vec<u64>> {
    samples
        .iter()
        .enumerate()
        .map(|(i, row)| row.iter().map(|&j| scale(distance(&points[i], &points[j]))).collect())
        .collect()
}

fn cluster(
    points: &[Vec<f64>],
    sampling_size: usize,
    max_dist: f64,
    min_points: usize,
    seed: u64,
) -> Vec<i32> {
    let mut rng = StdRng::seed_from_u64(seed);
    let model = SNG_DBSCAN::new(sampling_size, scale(max_dist), min_points);
    let samples = model.draw_samples(points.len(), &mut rng).unwrap();
    let dists = measure(points, &samples);
    model.fit_predict(&samples, &dists, &mut rng).unwrap()
}

fn line(positions: &[f64]) -> Vec<Vec<f64>> {
    positions.iter().map(|&x| vec![x]).collect()
}

#[test]
fn new_keeps_the_parameters() {
    let model = SNG_DBSCAN::new(3, 17, 5);
    assert_eq!(model.sampling_size, 3);
    assert_eq!(model.max_dist, 17);
    assert_eq!(model.min_points, 5);
}

#[test]
fn six_points_on_a_line_give_two_clusters() {
    let points = line(&[0.0, 1.0, 2.0, 10.0, 11.0, 12.0]);
    for seed in 0..20 {
        assert_eq!(cluster(&points, 6, 1.5, 2, seed), vec![0, 0, 0, 1, 1, 1]);
    }
}

#[test]
fn isolated_point_is_noise() {
    let points = line(&[0.0, 1.0, 2.0, 500.0, 3.0, 4.0]);
    for sampling_size in [1usize, 2, 3, 6, 50] {
        for min_points in [1usize, 2, 3, 10] {
            for seed in 0..10 {
                let labels = cluster(&points, sampling_size, 1.5, min_points, seed);
                assert_eq!(labels.len(), 6);
                assert_eq!(labels[3], -1);
            }
        }
    }
}

#[test]
fn min_points_zero_makes_every_point_a_core_point() {
    let points = line(&[0.0, 1.0, 2.0, 10.0, 11.0, 50.0]);
    for seed in 0..10 {
        assert_eq!(cluster(&points, 6, 1.5, 0, seed), vec![0, 0, 0, 1, 1, 2]);
    }
}

#[test]
fn distance_equal_to_max_dist_does_not_join() {
    let points = line(&[0.0, 1.5, 3.0]);
    assert_eq!(cluster(&points, 3, 1.5, 1, 0), vec![-1, -1, -1]);
    let wider = f64::from_bits(1.5f64.to_bits() + 1);
    assert_eq!(cluster(&points, 3, wider, 1, 0), vec![0, 0, 0]);
}

#[test]
fn two_dimensional_points_cluster_by_distance() {
    let points = vec![
        vec![0.0, 0.0],
        vec![0.0, 1.0],
        vec![1.0, 0.0],
        vec![1.0, 1.0],
        vec![20.0, 20.0],
        vec![20.0, 21.0],
        vec![21.0, 20.0],
        vec![-40.0, 7.0],
    ];
    for seed in 0..10 {
        assert_eq!(cluster(&points, 8, 1.2, 2, seed), vec![0, 0, 0, 0, 1, 1, 1, -1]);
    }
}

#[test]
fn no_points_no_labels() {
    let mut rng = StdRng::seed_from_u64(0);
    let model = SNG_DBSCAN::new(3, 10, 2);
    assert_eq!(model.fit_predict(&Vec::new(), &Vec::new(), &mut rng), Ok(Vec::new()));
}

#[test]
fn every_point_gets_a_label() {
    let positions: Vec<f64> = (0..200).map(|i| ((i * 37) % 101) as f64 * 0.5).collect();
    let points = line(&positions);
    for seed in 0..5 {
        let labels = cluster(&points, 10, 1.1, 3, seed);
        assert_eq!(labels.len(), 200);
        let clusters = labels.iter().copied().max().unwrap() + 1;
        for &label in &labels {
            assert!(-1 <= label && label < clusters);
        }
        for k in 0..clusters {
            assert!(labels.contains(&k));
        }
    }
}

#[test]
fn same_seed_gives_same_labels() {
    let positions: Vec<f64> = (0..150).map(|i| ((i * 53) % 97) as f64 * 0.7).collect();
    let points = line(&positions);
    assert_eq!(cluster(&points, 8, 1.5, 3, 123), cluster(&points, 8, 1.5, 3, 123));
}

#[test]
fn clusters_are_numbered_by_their_smallest_core_point() {
    // The core points are the middle ones: point 2 at 31 and point 3 at 1.
    let points = line(&[30.0, 0.0, 31.0, 1.0, 32.0, 2.0]);
    for seed in 0..10 {
        assert_eq!(cluster(&points, 6, 1.5, 2, seed), vec![0, 1, 0, 1, 0, 1]);
    }
    let swapped = line(&[0.0, 30.0, 31.0, 1.0, 32.0, 2.0, 3.0]);
    for seed in 0..10 {
        assert_eq!(cluster(&swapped, 7, 1.5, 2, seed), vec![1, 0, 0, 1, 0, 1, 1]);
    }
}

#[test]
fn sampling_size_zero_is_refused() {
    let mut rng = StdRng::seed_from_u64(0);
    let model = SNG_DBSCAN::new(0, 10, 2);
    let samples = vec![vec![1usize], vec![0]];
    let dists = vec![vec![1u64], vec![1]];
    assert_eq!(
        model.fit_predict(&samples, &dists, &mut rng),
        Err(ClusterError::InvalidSamplingSize)
    );
    assert_eq!(
        model.fit_predict(&samples, &Vec::new(), &mut rng),
        Err(ClusterError::InvalidSamplingSize)
    );
}

#[test]
fn samples_without_distances_are_refused() {
    let mut rng = StdRng::seed_from_u64(0);
    let model = SNG_DBSCAN::new(1, 10, 2);
    let samples = vec![vec![1usize], vec![0]];
    assert_eq!(
        model.fit_predict(&samples, &vec![vec![1u64], vec![]], &mut rng),
        Err(ClusterError::MalformedInput)
    );
    assert_eq!(
        model.fit_predict(&samples, &vec![vec![1u64]], &mut rng),
        Err(ClusterError::MalformedInput)
    );
}

#[test]
fn sample_of_an_unknown_point_is_refused() {
    let mut rng = StdRng::seed_from_u64(0);
    let model = SNG_DBSCAN::new(1, 10, 2);
    let samples = vec![vec![2usize], vec![0]];
    let dists = vec![vec![1u64], vec![1]];
    assert_eq!(model.fit_predict(&samples, &dists, &mut rng), Err(ClusterError::MalformedInput));
}

#[test]
fn samples_from_elsewhere_are_accepted() {
    let mut rng = StdRng::seed_from_u64(0);
    let model = SNG_DBSCAN::new(1, 10, 1);
    let samples = vec![vec![1usize, 1, 2], vec![], vec![3], vec![]];
    let dists = vec![vec![9u64, 12, 10], vec![], vec![0], vec![]];
    assert_eq!(model.fit_predict(&samples, &dists, &mut rng), Ok(vec![0, 0, 1, 1]));
}

#[test]
fn sparse_sampling_still_labels_every_point() {
    let positions: Vec<f64> =
        (0..300).map(|i| (i % 3) as f64 * 100.0 + (i / 3) as f64 * 0.001).collect();
    let points = line(&positions);
    for seed in 0..5 {
        let labels = cluster(&points, 20, 1.0, 4, seed);
        assert_eq!(labels.len(), 300);
        for i in 0..300 {
            for j in 0..300 {
                if labels[i] >= 0 && labels[i] == labels[j] {
                    assert_eq!(i % 3, j % 3);
                }
            }
        }
    }
}
