use patchsplit::config::SplitType;
use patchsplit::executor::crop;
use patchsplit::imaging::{height_of, width_of};
use patchsplit::sampler::RandomSource;

#[test]
fn center_strategy_yields_one_patch_at_the_centered_origin() {
    let img = image::DynamicImage::new_rgb8(1024, 1024);
    let mut rng = RandomSource::from_seed(1);
    let patches = crop(&img, (64, 64), &SplitType::Center, &mut rng).unwrap();
    assert_eq!(patches.len(), 1);
    assert_eq!(patches[0].0, (480, 480));
    assert_eq!(width_of(&patches[0].1), 64);
    assert_eq!(height_of(&patches[0].1), 64);
}

#[test]
fn circular_strategy_yields_one_patch_per_sample_within_bounds() {
    let img = image::DynamicImage::new_rgb8(512, 512);
    let mut rng = RandomSource::from_seed(9);
    let strategy = SplitType::Circular { sample_size: 100, threshold: None, scaling: 200 };
    let patches = crop(&img, (64, 64), &strategy, &mut rng).unwrap();
    assert_eq!(patches.len(), 100);
    for ((x, y), patch) in patches.iter() {
        assert!(x + 64 <= 512);
        assert!(y + 64 <= 512);
        assert_eq!(width_of(patch), 64);
        assert_eq!(height_of(patch), 64);
    }
}

#[test]
fn too_small_image_is_skipped_not_an_error() {
    let img = image::DynamicImage::new_rgb8(32, 32);
    let mut rng = RandomSource::from_seed(3);
    assert!(crop(&img, (64, 64), &SplitType::Center, &mut rng).is_none());
    let strategy = SplitType::Circular { sample_size: 10, threshold: None, scaling: 50 };
    assert!(crop(&img, (64, 64), &strategy, &mut rng).is_none());
}

#[test]
fn patch_height_is_checked_against_the_image_height() {
    let img = image::DynamicImage::new_rgb8(200, 40);
    let mut rng = RandomSource::from_seed(4);
    assert!(crop(&img, (32, 64), &SplitType::Center, &mut rng).is_none());
    let patches = crop(&img, (32, 32), &SplitType::Center, &mut rng).unwrap();
    assert_eq!(patches.len(), 1);
    assert_eq!(patches[0].0, (84, 4));
}

#[test]
fn tall_patch_fits_a_tall_image() {
    // The width is checked against the smaller dimension, the height only
    // against the image height, so a 40x60 patch fits a 50x100 image.
    let img = image::DynamicImage::new_rgb8(50, 100);
    let mut rng = RandomSource::from_seed(12);
    let patches = crop(&img, (40, 60), &SplitType::Center, &mut rng).unwrap();
    assert_eq!(patches.len(), 1);
    assert_eq!(patches[0].0, (5, 20));
    assert_eq!(width_of(&patches[0].1), 40);
    assert_eq!(height_of(&patches[0].1), 60);
}

#[test]
fn merged_circular_run_stays_within_sample_budget() {
    let img = image::DynamicImage::new_rgb8(512, 512);
    let mut rng = RandomSource::from_seed(11);
    let strategy = SplitType::Circular { sample_size: 50, threshold: Some(10), scaling: 200 };
    let patches = crop(&img, (64, 64), &strategy, &mut rng).unwrap();
    assert!(patches.len() <= 50);
    assert!(!patches.is_empty());
    for ((x, y), _) in patches.iter() {
        assert!(x + 64 <= 512);
        assert!(y + 64 <= 512);
    }
}
