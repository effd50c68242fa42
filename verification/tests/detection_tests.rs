use adas_core::detection::{suppress_candidate, vehicle_label};

/// Greedy suppression driven one candidate at a time, comparing against the
/// kept candidates until the first overlap; `ov[i][j]` says whether
/// candidate `i` overlaps the earlier candidate `j`.
fn greedy(ov: &[Vec<bool>]) -> Vec<usize> {
    let mut kept: Vec<usize> = Vec::new();
    for i in 0..ov.len() {
        let mut row = Vec::new();
        for &k in &kept {
            let hit = k < ov[i].len() && ov[i][k];
            row.push(hit);
            if hit {
                break;
            }
        }
        suppress_candidate(&mut kept, i, &row);
    }
    kept
}

#[test]
fn suppression_keeps_everything_without_overlap() {
    let ov = vec![vec![], vec![false], vec![false, false]];
    assert_eq!(greedy(&ov), vec![0, 1, 2]);
}

#[test]
fn suppression_drops_overlapping_later_candidates() {
    // 1 overlaps 0; 2 overlaps only 1, which was dropped, so 2 stays.
    let ov = vec![vec![], vec![true], vec![false, true]];
    assert_eq!(greedy(&ov), vec![0, 2]);
}

#[test]
fn suppression_of_empty_input() {
    let ov: Vec<Vec<bool>> = Vec::new();
    assert!(greedy(&ov).is_empty());
}

#[test]
fn suppression_step_keeps_candidate_without_overlap() {
    let mut kept = vec![0, 3];
    assert!(suppress_candidate(&mut kept, 5, &vec![false, false]));
    assert_eq!(kept, vec![0, 3, 5]);
    let mut first = Vec::new();
    assert!(suppress_candidate(&mut first, 0, &Vec::new()));
    assert_eq!(first, vec![0]);
}

#[test]
fn suppression_step_drops_candidate_on_first_overlap() {
    let mut kept = vec![0, 3];
    assert!(!suppress_candidate(&mut kept, 5, &vec![true]));
    assert!(!suppress_candidate(&mut kept, 6, &vec![false, true]));
    assert_eq!(kept, vec![0, 3]);
}

#[test]
fn vehicle_labels() {
    assert_eq!(vehicle_label(2), "car");
    assert_eq!(vehicle_label(3), "motorcycle");
    assert_eq!(vehicle_label(5), "bus");
    assert_eq!(vehicle_label(7), "truck");
    assert_eq!(vehicle_label(0), "vehicle");
}
