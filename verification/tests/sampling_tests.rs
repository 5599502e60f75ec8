use rand::rngs::StdRng;
use rand::SeedableRng;
use sng_dbscan::dbscan::{ClusterError, SNG_DBSCAN};
use sng_dbscan::sampling::{draw_sample, index_range, sample_neighbors};

fn is_draw(sample: &[usize], n: usize, size: usize) -> bool {
    let mut seen = vec![false; n];
    for &j in sample {
        if j >= n || seen[j] {
            return false;
        }
        seen[j] = true;
    }
    sample.len() == size.min(n)
}

#[test]
fn index_range_counts_up() {
    assert_eq!(index_range(0), Vec::<usize>::new());
    assert_eq!(index_range(5), vec![0, 1, 2, 3, 4]);
}

#[test]
fn sample_has_the_size_asked_for() {
    let mut rng = StdRng::seed_from_u64(11);
    let indices = index_range(10);
    for _ in 0..50 {
        let sample = draw_sample(&indices, 3, &mut rng);
        assert_eq!(sample.len(), 3);
        assert!(is_draw(&sample, 10, 3));
    }
}

#[test]
fn sample_of_everything_is_the_whole_range() {
    let mut rng = StdRng::seed_from_u64(5);
    let indices = index_range(6);
    for size in [6usize, 7, 100, usize::MAX] {
        let mut sample = draw_sample(&indices, size, &mut rng);
        assert_eq!(sample.len(), 6);
        sample.sort();
        assert_eq!(sample, vec![0, 1, 2, 3, 4, 5]);
    }
}

#[test]
fn sample_of_size_zero_is_empty() {
    let mut rng = StdRng::seed_from_u64(5);
    let indices = index_range(6);
    assert!(draw_sample(&indices, 0, &mut rng).is_empty());
    assert!(draw_sample(&index_range(0), 4, &mut rng).is_empty());
}

#[test]
fn samples_differ_between_draws() {
    let mut rng = StdRng::seed_from_u64(2024);
    let indices = index_range(1000);
    let first = draw_sample(&indices, 5, &mut rng);
    let mut differs = false;
    for _ in 0..20 {
        if draw_sample(&indices, 5, &mut rng) != first {
            differs = true;
        }
    }
    assert!(differs);
}

#[test]
fn same_seed_gives_same_samples() {
    let mut a = StdRng::seed_from_u64(77);
    let mut b = StdRng::seed_from_u64(77);
    assert_eq!(sample_neighbors(30, 4, &mut a), sample_neighbors(30, 4, &mut b));
}

#[test]
fn every_point_gets_a_sample_of_the_full_range() {
    let mut rng = StdRng::seed_from_u64(3);
    let samples = sample_neighbors(25, 7, &mut rng);
    assert_eq!(samples.len(), 25);
    let mut drew_itself = false;
    for (i, sample) in samples.iter().enumerate() {
        assert!(is_draw(sample, 25, 7));
        if sample.contains(&i) {
            drew_itself = true;
        }
    }
    assert!(drew_itself);
}

#[test]
fn sampling_size_zero_gives_empty_samples() {
    let mut rng = StdRng::seed_from_u64(3);
    let samples = sample_neighbors(4, 0, &mut rng);
    assert_eq!(samples, vec![Vec::<usize>::new(); 4]);
}

#[test]
fn no_points_no_samples() {
    let mut rng = StdRng::seed_from_u64(3);
    assert!(sample_neighbors(0, 3, &mut rng).is_empty());
}

#[test]
fn model_refuses_sampling_size_zero() {
    let mut rng = StdRng::seed_from_u64(3);
    let model = SNG_DBSCAN::new(0, 10, 2);
    assert_eq!(model.draw_samples(5, &mut rng), Err(ClusterError::InvalidSamplingSize));
}

#[test]
fn model_draws_samples_of_its_sampling_size() {
    let mut rng = StdRng::seed_from_u64(9);
    let model = SNG_DBSCAN::new(2, 10, 2);
    let samples = model.draw_samples(8, &mut rng).unwrap();
    assert_eq!(samples.len(), 8);
    for sample in &samples {
        assert!(is_draw(sample, 8, 2));
    }
}
