use adas_core::frame::ImageFrame;
use adas_core::traffic_light::{
    detect_traffic_light_hsv, LightStatus, TemporalVoter, LIGHT_VOTE_THRESHOLD, LIGHT_VOTE_WINDOW,
};

#[test]
fn voter_starts_with_no_light() {
    let v = TemporalVoter::new(5, 3);
    assert_eq!(v.current(), LightStatus::NoLight);
}

#[test]
fn voter_confirms_after_threshold_votes() {
    let mut v = TemporalVoter::new(5, 3);
    assert_eq!(v.vote(LightStatus::Red), LightStatus::NoLight);
    assert_eq!(v.vote(LightStatus::Red), LightStatus::NoLight);
    assert_eq!(v.vote(LightStatus::Red), LightStatus::Red);
    assert_eq!(v.current(), LightStatus::Red);
}

#[test]
fn voter_ignores_single_glitch() {
    let mut v = TemporalVoter::new(5, 3);
    for _ in 0..3 {
        v.vote(LightStatus::Green);
    }
    assert_eq!(v.vote(LightStatus::Red), LightStatus::Green);
    assert_eq!(v.vote(LightStatus::Green), LightStatus::Green);
}

#[test]
fn voter_switches_after_streak() {
    // Streak law: `threshold` equal observations in a row confirm a status.
    let mut v = TemporalVoter::new(5, 3);
    for _ in 0..5 {
        v.vote(LightStatus::Green);
    }
    assert_eq!(v.vote(LightStatus::Yellow), LightStatus::Green);
    assert_eq!(v.vote(LightStatus::Yellow), LightStatus::Green);
    assert_eq!(v.vote(LightStatus::Yellow), LightStatus::Yellow);
}

#[test]
fn voter_window_forgets_old_votes() {
    let mut v = TemporalVoter::new(3, 2);
    v.vote(LightStatus::Red);
    v.vote(LightStatus::Off);
    v.vote(LightStatus::Green);
    // window is now [Off, Green, Green]: Green reaches 2.
    assert_eq!(v.vote(LightStatus::Green), LightStatus::Green);
    // window [Green, Green, Red]: Red has 1, Green stays.
    assert_eq!(v.vote(LightStatus::Red), LightStatus::Green);
}

#[test]
fn voter_priority_without_majority() {
    // With threshold 2 in a window of 5 two statuses can both qualify; the
    // first in the order Red, Yellow, Green, Off, NoLight wins.
    let mut v = TemporalVoter::new(5, 2);
    v.vote(LightStatus::Green);
    v.vote(LightStatus::Green);
    v.vote(LightStatus::Red);
    assert_eq!(v.vote(LightStatus::Red), LightStatus::Red);
}

#[test]
fn voter_threshold_zero_confirms_red() {
    let mut v = TemporalVoter::new(5, 0);
    assert_eq!(v.vote(LightStatus::Green), LightStatus::Red);
}

#[test]
fn voter_zero_window_keeps_nothing() {
    let mut v = TemporalVoter::new(0, 1);
    assert_eq!(v.vote(LightStatus::Green), LightStatus::NoLight);
    assert_eq!(v.vote(LightStatus::Green), LightStatus::NoLight);
}

#[test]
fn vote_frame_without_fixtures_votes_no_light() {
    let mut v = TemporalVoter::new(5, 3);
    assert_eq!(v.vote_frame(&Vec::new()), LightStatus::NoLight);
    assert_eq!(v.vote_frame(&Vec::new()), LightStatus::NoLight);
    v.vote(LightStatus::Red);
    v.vote(LightStatus::Red);
    // The third empty frame makes NoLight reach 3 of the last 5 frames.
    assert_eq!(v.vote_frame(&Vec::new()), LightStatus::NoLight);
    let mut w = TemporalVoter::new(5, 3);
    w.vote(LightStatus::Red);
    w.vote(LightStatus::Red);
    w.vote(LightStatus::Red);
    assert_eq!(w.vote_frame(&Vec::new()), LightStatus::Red);
}

#[test]
fn vote_frame_casts_one_vote_per_frame() {
    // Several fixtures in a frame still count as one observation: the
    // status of the first (highest-confidence) fixture.
    let mut v = TemporalVoter::new(5, 3);
    let frame = vec![LightStatus::Red, LightStatus::Green, LightStatus::Green];
    assert_eq!(v.vote_frame(&frame), LightStatus::NoLight);
    assert_eq!(v.vote_frame(&frame), LightStatus::NoLight);
    assert_eq!(v.vote_frame(&frame), LightStatus::Red);
    // Two more frames led by green: green has 2 of the last 5 frames.
    let green_first = vec![LightStatus::Green, LightStatus::Red];
    assert_eq!(v.vote_frame(&green_first), LightStatus::Red);
    assert_eq!(v.vote_frame(&green_first), LightStatus::Red);
    // A third: the window is [Red, Red, Green, Green, Green].
    assert_eq!(v.vote_frame(&green_first), LightStatus::Green);
}

#[test]
fn status_names() {
    assert_eq!(LightStatus::Red.name(), "Red");
    assert_eq!(LightStatus::Yellow.name(), "Yellow");
    assert_eq!(LightStatus::Green.name(), "Green");
    assert_eq!(LightStatus::Off.name(), "Off");
    assert_eq!(LightStatus::NoLight.name(), "None");
}

#[test]
fn status_from_class_index() {
    assert_eq!(LightStatus::from_class_index(0), LightStatus::Red);
    assert_eq!(LightStatus::from_class_index(1), LightStatus::Yellow);
    assert_eq!(LightStatus::from_class_index(2), LightStatus::Green);
    assert_eq!(LightStatus::from_class_index(3), LightStatus::Off);
    assert_eq!(LightStatus::from_class_index(9), LightStatus::Off);
}

/// A BGR frame filled with one colour, with `bright` pixels of another
/// colour written in raster order from the top-left corner.
fn frame_with(h: usize, w: usize, base: [u8; 3], spot: [u8; 3], bright: usize) -> ImageFrame {
    let mut data = Vec::new();
    for p in 0..h * w {
        let px = if p < bright { spot } else { base };
        data.extend_from_slice(&px);
    }
    ImageFrame::from_raw(h, w, 3, data).unwrap()
}

#[test]
fn hsv_detects_red() {
    let f = frame_with(30, 10, [0, 0, 0], [10, 20, 250], 51);
    assert_eq!(detect_traffic_light_hsv(&f), LightStatus::Red);
}

#[test]
fn hsv_needs_more_than_fifty_pixels() {
    let f = frame_with(30, 10, [0, 0, 0], [10, 20, 250], 50);
    assert_eq!(detect_traffic_light_hsv(&f), LightStatus::NoLight);
}

#[test]
fn hsv_detects_yellow_and_green() {
    let y = frame_with(30, 10, [0, 0, 0], [0, 200, 200], 60);
    assert_eq!(detect_traffic_light_hsv(&y), LightStatus::Yellow);
    let g = frame_with(30, 10, [0, 0, 0], [0, 200, 10], 60);
    assert_eq!(detect_traffic_light_hsv(&g), LightStatus::Green);
}

#[test]
fn hsv_scans_only_top_third() {
    // 30 rows of 10: the top third is the first 100 pixels. Red pixels
    // placed after them are not counted.
    let mut data = Vec::new();
    for p in 0..300 {
        let px: [u8; 3] = if p >= 100 { [0, 0, 255] } else { [0, 0, 0] };
        data.extend_from_slice(&px);
    }
    let f = ImageFrame::from_raw(30, 10, 3, data).unwrap();
    assert_eq!(detect_traffic_light_hsv(&f), LightStatus::NoLight);
}

#[test]
fn hsv_red_wins_over_green() {
    let mut data = Vec::new();
    for p in 0..300 {
        let px: [u8; 3] = if p < 60 { [0, 255, 0] } else if p < 100 { [0, 0, 255] } else { [0, 0, 0] };
        data.extend_from_slice(&px);
    }
    // 60 green, 40 red: not enough red, so green.
    let f = ImageFrame::from_raw(30, 10, 3, data.clone()).unwrap();
    assert_eq!(detect_traffic_light_hsv(&f), LightStatus::Green);
    let mut data2 = Vec::new();
    for p in 0..300 {
        let px: [u8; 3] = if p < 51 { [0, 255, 0] } else if p < 100 { [0, 0, 255] } else { [0, 0, 0] };
        data2.extend_from_slice(&px);
    }
    let _ = data;
    // 51 green and 49 red: green.
    let f2 = ImageFrame::from_raw(30, 10, 3, data2).unwrap();
    assert_eq!(detect_traffic_light_hsv(&f2), LightStatus::Green);
    let f3 = frame_with(60, 10, [0, 255, 0], [0, 0, 255], 60);
    // 60 red and 140 green in the top 200 pixels: red has priority.
    assert_eq!(detect_traffic_light_hsv(&f3), LightStatus::Red);
}

#[test]
fn hsv_reads_bgr_order_with_extra_channels() {
    // Four channels per pixel: the fourth is ignored.
    let mut data = Vec::new();
    for _ in 0..300 {
        data.extend_from_slice(&[0u8, 0, 255, 255]);
    }
    let f = ImageFrame::from_raw(30, 10, 4, data).unwrap();
    assert_eq!(detect_traffic_light_hsv(&f), LightStatus::Red);
}

#[test]
fn image_frame_rejects_wrong_length() {
    assert!(ImageFrame::from_raw(2, 2, 3, vec![0; 11]).is_none());
    let f = ImageFrame::from_raw(2, 2, 3, vec![0; 12]).unwrap();
    assert_eq!((f.height(), f.width(), f.channels(), f.data().len()), (2, 2, 3, 12));
    assert!(ImageFrame::from_raw(usize::MAX, 2, 0, vec![]).is_some());
    assert!(ImageFrame::from_raw(usize::MAX, 2, 1, vec![]).is_none());
}

#[test]
fn hsv_on_frame_with_empty_top_third() {
    // Two rows: the top third holds no row, so nothing is read, whatever
    // the channel count.
    let f = ImageFrame::from_raw(2, 4, 1, vec![255; 8]).unwrap();
    assert_eq!(detect_traffic_light_hsv(&f), LightStatus::NoLight);
}

#[test]
fn light_voter_constants_form_a_majority() {
    assert!(2 * LIGHT_VOTE_THRESHOLD > LIGHT_VOTE_WINDOW);
    let mut v = TemporalVoter::new(LIGHT_VOTE_WINDOW, LIGHT_VOTE_THRESHOLD);
    let mut last = LightStatus::NoLight;
    for _ in 0..LIGHT_VOTE_THRESHOLD {
        last = v.vote(LightStatus::Yellow);
    }
    assert_eq!(last, LightStatus::Yellow);
}
