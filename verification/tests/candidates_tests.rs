use patchsplit::candidates::generate_candidates;
use patchsplit::sampler::RandomSource;

#[test]
fn without_threshold_the_raw_sample_comes_back() {
    let mut rng = RandomSource::from_seed(5);
    let points = generate_candidates(&mut rng, 250, 100, None);
    assert_eq!(points.len(), 250);
    for p in points.iter() {
        let x: i64 = p.get_x();
        let y: i64 = p.get_y();
        assert!(x * x + y * y <= 100 * 100);
    }
}

#[test]
fn with_threshold_candidates_only_shrink() {
    let mut rng = RandomSource::from_seed(6);
    let points = generate_candidates(&mut rng, 250, 100, Some(25));
    assert!(points.len() <= 250);
    assert!(!points.is_empty());
    for p in points.iter() {
        let x: i64 = p.get_x();
        let y: i64 = p.get_y();
        assert!(x * x + y * y <= 100 * 100);
    }
}

#[test]
fn a_huge_threshold_collapses_everything_to_one_centroid() {
    let mut rng = RandomSource::from_seed(8);
    let points = generate_candidates(&mut rng, 40, 50, Some(200));
    assert_eq!(points.len(), 1);
}
