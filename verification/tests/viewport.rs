use cifir::decode::SourceRaster;
use cifir::viewport::{drag_action, scale_buffer, zoom_action, DragAction, ZoomAction};

fn raster(width: u32, height: u32, pixels: Vec<u32>) -> SourceRaster {
    SourceRaster {
        width,
        height,
        pixels,
    }
}

#[test]
fn identity_view_copies_the_raster() {
    // scale = 1, offset = (0, 0): source column x, source row y.
    let r = raster(2, 2, vec![1, 2, 3, 4]);
    let out = scale_buffer(&r, &vec![0, 1], &vec![0, 1]);
    assert_eq!(out, vec![1, 2, 3, 4]);
}

#[test]
fn origin_pixel_maps_to_first_source_pixel() {
    let r = raster(3, 1, vec![0xaa, 0xbb, 0xcc]);
    let out = scale_buffer(&r, &vec![0], &vec![0]);
    assert_eq!(out, vec![0xaa]);
}

#[test]
fn out_of_range_coordinates_are_background() {
    let r = raster(2, 2, vec![1, 2, 3, 4]);
    // Columns left of and right of the raster, rows above and below it.
    let out = scale_buffer(&r, &vec![-1, 2], &vec![-3, 5]);
    assert_eq!(out, vec![0, 0, 0, 0]);
}

#[test]
fn mixed_in_and_out_of_range() {
    let r = raster(2, 1, vec![7, 8]);
    let out = scale_buffer(&r, &vec![-1, 0, 1, 2], &vec![0]);
    assert_eq!(out, vec![0, 7, 8, 0]);
}

#[test]
fn zoomed_out_view_repeats_source_pixels() {
    // scale = 2, offset = (0, 0): destination 0 and 1 both land on source 0.
    let r = raster(2, 1, vec![5, 6]);
    let out = scale_buffer(&r, &vec![0, 0, 1, 1], &vec![0]);
    assert_eq!(out, vec![5, 5, 6, 6]);
}

#[test]
fn under_supplied_raster_renders_background_not_a_fault() {
    // 2x2 declared, only 3 pixels supplied: the last flat index is past
    // the end and must come out as background.
    let r = raster(2, 2, vec![7, 8, 9]);
    let out = scale_buffer(&r, &vec![0, 1], &vec![0, 1]);
    assert_eq!(out, vec![7, 8, 9, 0]);
}

#[test]
fn empty_destination_is_allowed() {
    let r = raster(1, 1, vec![3]);
    let out = scale_buffer(&r, &vec![], &vec![]);
    assert_eq!(out, vec![]);
}

#[test]
fn first_press_only_sets_the_anchor() {
    // Button held, position known, no anchor yet: capture, no offset change.
    assert!(matches!(drag_action(true, true, false), DragAction::SetAnchor));
}

#[test]
fn held_press_with_anchor_moves_the_view() {
    assert!(matches!(drag_action(true, true, true), DragAction::MoveView));
}

#[test]
fn releasing_the_button_clears_the_anchor() {
    assert!(matches!(drag_action(false, true, true), DragAction::ClearAnchor));
    assert!(matches!(drag_action(false, false, true), DragAction::ClearAnchor));
    assert!(matches!(drag_action(false, true, false), DragAction::ClearAnchor));
    assert!(matches!(drag_action(false, false, false), DragAction::ClearAnchor));
}

#[test]
fn held_press_without_a_position_changes_nothing() {
    assert!(matches!(drag_action(true, false, true), DragAction::NoChange));
    assert!(matches!(drag_action(true, false, false), DragAction::NoChange));
}

#[test]
fn scroll_up_with_a_position_zooms_in() {
    assert!(matches!(zoom_action(true, true, true), ZoomAction::ZoomIn));
}

#[test]
fn scroll_down_with_a_position_zooms_out() {
    assert!(matches!(zoom_action(false, true, true), ZoomAction::ZoomOut));
}

#[test]
fn no_scroll_or_no_position_means_no_zoom() {
    assert!(matches!(zoom_action(false, false, true), ZoomAction::NoZoom));
    assert!(matches!(zoom_action(true, true, false), ZoomAction::NoZoom));
    assert!(matches!(zoom_action(false, false, false), ZoomAction::NoZoom));
}
