use patchsplit::config::{ParamBuilder, SplitType};
use patchsplit::point::COORD_LIMIT;
use patchsplit::report::{summarize, FileOutcome, RunReport};

fn roots() -> ParamBuilder {
    ParamBuilder::new()
        .files(vec![vec![b"scan".to_vec(), b"img.jpg".to_vec()]])
        .prefix(vec![b"scan".to_vec()])
        .target(vec![b"out".to_vec()])
}

#[test]
fn build_defaults_to_center_and_64_square() {
    let config = roots().build();
    assert_eq!(config.split_size, (64, 64));
    assert!(matches!(config.split_type, SplitType::Center));
}

#[test]
fn build_chooses_circular_only_with_sample_and_scaling() {
    let config = roots().sample_size(100).scaling(200).threshold(5).split_size((32, 32)).build();
    assert_eq!(config.split_size, (32, 32));
    match config.split_type {
        SplitType::Circular { sample_size, threshold, scaling } => {
            assert_eq!(sample_size, 100);
            assert_eq!(threshold, Some(5));
            assert_eq!(scaling, 200);
        }
        SplitType::Center => panic!("expected the circular strategy"),
    }
    let partial = roots().sample_size(100).build();
    assert!(matches!(partial.split_type, SplitType::Center));
}

#[test]
fn strategy_wellformedness_bounds_the_parameters() {
    assert!(SplitType::Center.is_wf());
    let ok = SplitType::Circular { sample_size: 5, threshold: Some(3), scaling: 100 };
    assert!(ok.is_wf());
    let bad_scale = SplitType::Circular { sample_size: 5, threshold: None, scaling: -1 };
    assert!(!bad_scale.is_wf());
    let bad_threshold =
        SplitType::Circular { sample_size: 5, threshold: Some(COORD_LIMIT + 1), scaling: 1 };
    assert!(!bad_threshold.is_wf());
}

#[test]
fn summary_counts_each_outcome_kind() {
    let outcomes = vec![
        FileOutcome::Saved { patches: 3 },
        FileOutcome::DecodeFailed,
        FileOutcome::Saved { patches: 1 },
        FileOutcome::TooSmall,
        FileOutcome::WriteFailed,
        FileOutcome::DecodeFailed,
    ];
    let report = summarize(&outcomes);
    assert_eq!(
        report,
        RunReport { files_saved: 2, decode_failures: 2, too_small: 1, write_failures: 1 }
    );
}

#[test]
fn summary_of_no_files_is_all_zero() {
    let report = summarize(&Vec::new());
    assert_eq!(report.files_saved, 0);
    assert_eq!(report.decode_failures + report.too_small + report.write_failures, 0);
}
