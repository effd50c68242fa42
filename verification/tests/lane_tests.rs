use adas_core::frame::GrayFrame;
use adas_core::lane_detect::{apply_roi, keep_detected_lanes, polylines_to_lines, LanePolyline};
use adas_core::lane_manager::DepartureWarning;

fn lane(points: Vec<(f64, f64)>, idx: i32) -> LanePolyline<f64, f32> {
    LanePolyline { points, confidence: 1.0, lane_index: idx }
}

#[test]
fn lines_from_polylines() {
    let lanes = vec![
        lane(vec![(1.0, 9.0), (2.0, 8.0), (3.0, 7.0)], -1),
        lane(vec![(5.0, 5.0)], 0),
        lane(vec![(4.0, 9.0), (6.0, 4.0)], 1),
    ];
    let lines = polylines_to_lines(&lanes);
    assert_eq!(lines, vec![(1.0, 9.0, 3.0, 7.0), (4.0, 9.0, 6.0, 4.0)]);
}

#[test]
fn lines_from_no_polylines() {
    let lanes: Vec<LanePolyline<f64, f32>> = Vec::new();
    assert!(polylines_to_lines(&lanes).is_empty());
}

#[test]
fn short_lanes_are_dropped() {
    let pts = |n: usize| (0..n).map(|i| (i as f64, i as f64)).collect::<Vec<_>>();
    let lanes = vec![lane(pts(5), -1), lane(pts(4), 0), lane(pts(0), 1), lane(pts(7), 2)];
    let kept = keep_detected_lanes(lanes);
    assert_eq!(kept.len(), 2);
    assert_eq!(kept[0].lane_index, -1);
    assert_eq!(kept[1].lane_index, 2);
    assert_eq!(kept[1].points.len(), 7);
}

#[test]
fn roi_keeps_lower_half() {
    let pixels: Vec<u8> = (1..=12).collect();
    let img = GrayFrame::from_raw(3, 4, pixels).unwrap();
    let mask = apply_roi(&img, 3, 4);
    assert_eq!(mask.width(), 3);
    assert_eq!(mask.height(), 4);
    assert_eq!(mask.pixels(), &vec![0, 0, 0, 0, 0, 0, 7, 8, 9, 10, 11, 12]);
}

#[test]
fn roi_of_odd_height_and_smaller_area() {
    let pixels: Vec<u8> = (1..=20).collect();
    let img = GrayFrame::from_raw(4, 5, pixels).unwrap();
    // A 2 x 3 area: rows from 1 on are copied.
    let mask = apply_roi(&img, 2, 3);
    assert_eq!(mask.into_raw(), vec![0, 0, 5, 6, 9, 10]);
}

#[test]
fn gray_frame_rejects_wrong_length() {
    assert!(GrayFrame::from_raw(3, 4, vec![0; 11]).is_none());
    assert!(GrayFrame::from_raw(0, 4, vec![]).is_some());
}

#[test]
fn departure_labels() {
    assert_eq!(DepartureWarning::NoWarning.label(), "NONE");
    assert_eq!(DepartureWarning::DriftingLeft.label(), "DRIFTING_LEFT");
    assert_eq!(DepartureWarning::DriftingRight.label(), "DRIFTING_RIGHT");
    assert_eq!(DepartureWarning::DepartedLeft.label(), "DEPARTED_LEFT");
    assert_eq!(DepartureWarning::DepartedRight.label(), "DEPARTED_RIGHT");
}
