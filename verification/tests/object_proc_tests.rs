use adas_core::object_proc::{Assignment, TrackEntry, TrackTable, MAX_LOST_FRAMES};

fn entries(t: &TrackTable) -> Vec<(usize, usize)> {
    t.tracks().iter().map(|e| (e.id, e.lost_frames)).collect()
}

#[test]
fn new_tracks_get_consecutive_ids() {
    let mut t = TrackTable::new();
    let plan = t.advance(&vec![vec![], vec![], vec![]]).unwrap();
    assert_eq!(
        plan.assignments,
        vec![Assignment::Registered(0), Assignment::Registered(1), Assignment::Registered(2)]
    );
    assert!(plan.ghosts.is_empty());
    assert_eq!(t.next_id(), 3);
    assert_eq!(entries(&t), vec![(0, 0), (1, 0), (2, 0)]);
}

#[test]
fn matched_detection_continues_track() {
    let mut t = TrackTable::new();
    t.advance(&vec![vec![], vec![]]).unwrap();
    let plan = t.advance(&vec![vec![1], vec![7]]).unwrap();
    assert_eq!(plan.assignments, vec![Assignment::Matched(1), Assignment::Registered(2)]);
    assert_eq!(plan.ghosts, vec![TrackEntry { id: 0, lost_frames: 1 }]);
    assert_eq!(entries(&t), vec![(1, 0), (2, 0), (0, 1)]);
    assert_eq!(plan.assignments[0].id(), 1);
}

#[test]
fn a_track_is_taken_by_one_detection_only() {
    let mut t = TrackTable::new();
    t.advance(&vec![vec![], vec![]]).unwrap();
    // Both detections prefer track 0; the second falls back to track 1.
    let plan = t.advance(&vec![vec![0, 1], vec![0, 1]]).unwrap();
    assert_eq!(plan.assignments, vec![Assignment::Matched(0), Assignment::Matched(1)]);
    // A third detection that only wants track 0 opens a new track.
    let plan = t.advance(&vec![vec![0], vec![0]]).unwrap();
    assert_eq!(plan.assignments, vec![Assignment::Matched(0), Assignment::Registered(2)]);
    assert_eq!(plan.ghosts, vec![TrackEntry { id: 1, lost_frames: 1 }]);
}

#[test]
fn ghost_expires_after_max_lost_frames() {
    let mut t = TrackTable::new();
    t.advance(&vec![vec![]]).unwrap();
    for k in 1..=MAX_LOST_FRAMES {
        let plan = t.advance(&vec![]).unwrap();
        assert_eq!(plan.ghosts, vec![TrackEntry { id: 0, lost_frames: k }]);
    }
    let plan = t.advance(&vec![]).unwrap();
    assert!(plan.ghosts.is_empty());
    assert!(t.tracks().is_empty());
    // The id is not handed out again.
    let plan = t.advance(&vec![vec![0]]).unwrap();
    assert_eq!(plan.assignments, vec![Assignment::Registered(1)]);
}

#[test]
fn rematch_resets_lost_count() {
    let mut t = TrackTable::new();
    t.advance(&vec![vec![]]).unwrap();
    t.advance(&vec![]).unwrap();
    t.advance(&vec![]).unwrap();
    assert_eq!(entries(&t), vec![(0, 2)]);
    t.advance(&vec![vec![0]]).unwrap();
    assert_eq!(entries(&t), vec![(0, 0)]);
}
