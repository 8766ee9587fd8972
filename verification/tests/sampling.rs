use patchsplit::sampler::{circular_coords, RandomSource};

#[test]
fn sample_returns_exactly_count_points_inside_disc() {
    let mut rng = RandomSource::from_seed(7);
    let r: i64 = 200;
    let points = circular_coords(&mut rng, 1000, r);
    assert_eq!(points.len(), 1000);
    for p in points.iter() {
        let x: i64 = p.get_x();
        let y: i64 = p.get_y();
        assert!(x * x + y * y <= r * r);
    }
    let first = (points[0].get_x(), points[0].get_y());
    assert!(points.iter().any(|p| (p.get_x(), p.get_y()) != first));
}

#[test]
fn sample_zero_count_is_empty() {
    let mut rng = RandomSource::from_seed(1);
    let points = circular_coords(&mut rng, 0, 100);
    assert!(points.is_empty());
}

#[test]
fn sample_radius_zero_yields_origin() {
    let mut rng = RandomSource::from_seed(2);
    let points = circular_coords(&mut rng, 5, 0);
    assert_eq!(points.len(), 5);
    for p in points.iter() {
        assert_eq!(p.get_x(), 0);
        assert_eq!(p.get_y(), 0);
    }
}

#[test]
fn seeded_sampling_is_reproducible() {
    let mut a = RandomSource::from_seed(42);
    let mut b = RandomSource::from_seed(42);
    let pa = circular_coords(&mut a, 50, 300);
    let pb = circular_coords(&mut b, 50, 300);
    for (x, y) in pa.iter().zip(pb.iter()) {
        assert_eq!(x.get_x(), y.get_x());
        assert_eq!(x.get_y(), y.get_y());
    }
}
