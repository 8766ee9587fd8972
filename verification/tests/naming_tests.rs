use patchsplit::labels::LabelMap;
use patchsplit::naming::{patch_name, Saver};

fn b(s: &str) -> Vec<u8> {
    s.as_bytes().to_vec()
}

fn segs(parts: &[&str]) -> Vec<Vec<u8>> {
    parts.iter().map(|s| b(s)).collect()
}

#[test]
fn name_encodes_relative_path_stem_and_coordinate() {
    let origin = segs(&["scan", "a", "b", "img1.jpg"]);
    let name = patch_name(&origin, 1, 480, 480);
    assert_eq!(name, b("b|img1|480_480.jpg"));
    assert!(name.starts_with(&b("b|img1|")[..]));
}

#[test]
fn nested_segments_are_joined_with_bars() {
    let origin = segs(&["root", "x", "y", "z", "photo.png"]);
    let name = patch_name(&origin, 1, 3, 14);
    assert_eq!(name, b("y|z|photo|3_14.jpg"));
}

#[test]
fn file_directly_below_root_keeps_only_its_stem() {
    let origin = segs(&["root", "img2.jpg"]);
    let name = patch_name(&origin, 1, 5, 7);
    assert_eq!(name, b("img2|5_7.jpg"));
}

#[test]
fn stem_stops_at_last_dot_only() {
    let origin = segs(&["r", "archive.tar.gz"]);
    assert_eq!(patch_name(&origin, 1, 0, 0), b("archive.tar|0_0.jpg"));
    let hidden = segs(&["r", ".hidden"]);
    assert_eq!(patch_name(&hidden, 1, 0, 0), b(".hidden|0_0.jpg"));
    let bare = segs(&["r", "noext"]);
    assert_eq!(patch_name(&bare, 1, 0, 0), b("noext|0_0.jpg"));
}

#[test]
fn large_coordinates_render_in_full_decimal() {
    let origin = segs(&["r", "p.jpg"]);
    assert_eq!(patch_name(&origin, 1, 1234567890, 0), b("p|1234567890_0.jpg"));
}

#[test]
fn patch_path_without_label_map_goes_to_target_root() {
    let saver = Saver::build(segs(&["scan"]), segs(&["out"]), None);
    let path = saver.patch_path(&segs(&["scan", "a", "b", "img1.jpg"]), 480, 480).unwrap();
    assert_eq!(path, segs(&["out", "b|img1|480_480.jpg"]));
}

#[test]
fn patch_path_routes_through_label_subdirectory() {
    let map = LabelMap::parse(&b("catA cats\n"));
    let saver = Saver::build(segs(&["scanroot"]), segs(&["out"]), Some(map));
    let path = saver.patch_path(&segs(&["scanroot", "catA", "img2.jpg"]), 5, 7).unwrap();
    assert_eq!(path, segs(&["out", "cats", "img2|5_7.jpg"]));
}

#[test]
fn unlabeled_first_segment_falls_back_to_target_root() {
    let map = LabelMap::parse(&b("catA cats\n"));
    let saver = Saver::build(segs(&["scanroot"]), segs(&["out"]), Some(map));
    let path = saver.patch_path(&segs(&["scanroot", "dogB", "img3.jpg"]), 1, 2).unwrap();
    assert_eq!(path, segs(&["out", "img3|1_2.jpg"]));
}

#[test]
fn origin_outside_the_scan_root_is_skipped() {
    let saver = Saver::build(segs(&["scan"]), segs(&["out"]), None);
    assert!(saver.patch_path(&segs(&["other", "img.jpg"]), 0, 0).is_none());
    assert!(saver.patch_path(&segs(&["scan"]), 0, 0).is_none());
}

#[test]
fn deep_target_roots_are_kept_whole() {
    let saver = Saver::build(segs(&["scan"]), segs(&["out", "v1"]), None);
    let path = saver.patch_path(&segs(&["scan", "c", "img.jpg"]), 9, 9).unwrap();
    assert_eq!(path, segs(&["out", "v1", "img|9_9.jpg"]));
}
