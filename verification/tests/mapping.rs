use patchsplit::mapper::{center_coord, effective_scale, to_absolute, to_coords, transform_points};
use patchsplit::point::Point;

#[test]
fn transform_shifts_every_point() {
    let out = transform_points(
        vec![Point::new(1, 2), Point::new(-3, 4)],
        Point::new(10, 20),
    );
    assert_eq!(out.len(), 2);
    assert_eq!((out[0].get_x(), out[0].get_y()), (11, 22));
    assert_eq!((out[1].get_x(), out[1].get_y()), (7, 24));
}

#[test]
fn to_coords_discards_negative_conversions() {
    let out = to_coords(vec![Point::new(-5, -5), Point::new(3, 4)], None);
    assert_eq!(out, vec![(3, 4)]);
}

#[test]
fn to_coords_applies_transformer_first() {
    let out = to_coords(vec![Point::new(-5, -5)], Some(Point::new(10, 10)));
    assert_eq!(out, vec![(5, 5)]);
}

#[test]
fn to_absolute_never_exceeds_image_bounds() {
    let points = vec![
        Point::new(-60, -60),
        Point::new(0, 0),
        Point::new(60, 60),
        Point::new(500, 0),
    ];
    let out = to_absolute(&points, Point::new(64, 64), 128, 128, 16, 16);
    for (x, y) in out.iter() {
        assert!(x + 16 <= 128);
        assert!(y + 16 <= 128);
    }
    // (-60,-60) -> (4,4) kept; (0,0) -> (64,64) kept (64+16 <= 128);
    // (60,60) -> (124,124) dropped; (500,0) -> far right dropped.
    assert_eq!(out, vec![(4, 4), (64, 64)]);
}

#[test]
fn to_absolute_keeps_all_when_room_remains() {
    let points = vec![Point::new(-168, 0), Point::new(168, -168), Point::new(0, 168)];
    let out = to_absolute(&points, Point::new(224, 224), 512, 512, 64, 64);
    assert_eq!(out.len(), points.len());
}

#[test]
fn effective_scale_clamps_then_subtracts_half_patch() {
    assert_eq!(effective_scale(200, 512, 64), 168);
    assert_eq!(effective_scale(1000, 512, 64), 224);
    assert_eq!(effective_scale(10, 512, 64), -22);
}

#[test]
fn center_coord_is_half_image_minus_half_patch() {
    assert_eq!(center_coord(1024, 1024, 64, 64), (480, 480));
    assert_eq!(center_coord(100, 50, 30, 20), (35, 15));
}
