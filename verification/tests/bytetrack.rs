use aurascan::bytetrack::{
    joint_stracks, remove_duplicate_stracks, split_assignment, sub_stracks, ActiveSTrack, ByteTrack,
    Counter, STrack, Stage, TrackLife, TrackState,
};

fn active(track_id: usize, start_frame: usize, frame_id: usize, data: i32) -> STrack<i32> {
    STrack {
        life: TrackLife::Active(ActiveSTrack {
            track_id,
            frame_id,
            start_frame,
            tracklet_len: 0,
            state: TrackState::Tracking,
            det_idx: None,
        }),
        data,
    }
}

fn ids(tracks: &[STrack<i32>]) -> Vec<usize> {
    tracks.iter().map(|t| t.track_id()).collect()
}

#[test]
fn counter_hands_out_consecutive_numbers() {
    let mut c = Counter::new();
    assert_eq!(c.increment(), 0);
    assert_eq!(c.increment(), 1);
    assert_eq!(c.current(), 2);
    let mut d = Counter::with_start(1);
    assert_eq!(d.increment(), 1);
    assert_eq!(d.current(), 2);
}

#[test]
fn strack_life_cycle() {
    let mut ids_counter = Counter::with_start(7);
    let mut t = STrack::from_detection(5i32, 3);
    assert!(!t.is_activated());
    assert!(!t.is_tracked());
    assert_eq!(t.det_idx(), Some(3));
    t.activate(&mut ids_counter, 4);
    assert!(t.is_activated());
    assert!(t.is_tracked());
    assert_eq!(t.track_id(), 7);
    assert_eq!(t.frame_id(), 4);
    assert_eq!(t.start_frame(), 4);
    assert_eq!(t.det_idx(), Some(3));
    assert_eq!(ids_counter.current(), 8);
    t.update(6);
    assert_eq!(t.frame_id(), 6);
    assert_eq!(t.start_frame(), 4);
    t.mark_lost();
    assert!(t.is_lost());
    assert!(!t.is_tracked());
    t.reactivate(9);
    assert!(t.is_tracked());
    assert_eq!(t.frame_id(), 9);
    assert_eq!(t.track_id(), 7);
    t.reactivate_with_new_id(10, &mut ids_counter);
    assert_eq!(t.track_id(), 8);
    t.mark_removed();
    assert!(!t.is_tracked());
    assert!(!t.is_lost());
    t.set_det_idx(None);
    assert_eq!(t.det_idx(), None);
    assert_eq!(t.data, 5);
    let u = t.duplicate();
    assert_eq!(u.life(), t.life());
}

#[test]
fn joint_keeps_first_of_each_identity() {
    let a = vec![active(1, 1, 1, 10), active(2, 1, 1, 20)];
    let b = vec![active(2, 1, 3, 99), active(3, 2, 3, 30), active(3, 2, 3, 31)];
    let j = joint_stracks(&a, &b);
    assert_eq!(ids(&j), vec![1, 2, 3]);
    assert_eq!(j[1].data, 20);
    assert_eq!(j[2].data, 30);
}

#[test]
fn sub_drops_shared_identities() {
    let a = vec![active(1, 1, 1, 10), active(2, 1, 1, 20), active(3, 1, 1, 30)];
    let b = vec![active(2, 1, 1, 0)];
    let s = sub_stracks(&a, &b);
    assert_eq!(ids(&s), vec![1, 3]);
    assert!(sub_stracks(&a, &a).is_empty());
    assert_eq!(ids(&sub_stracks(&a, &[])), vec![1, 2, 3]);
}

#[test]
fn duplicates_lose_the_younger_track() {
    // Track 1 has lived 5 frames, track 2 only 1: track 2 is dropped.
    let a = vec![active(1, 1, 6, 10), active(4, 5, 6, 40)];
    let b = vec![active(2, 5, 6, 11), active(3, 2, 6, 30)];
    let close = vec![vec![true, false], vec![false, true]];
    let (ra, rb) = remove_duplicate_stracks(&a, &b, &close);
    // Pair (1, 2): 1 is older, 2 goes. Pair (4, 3): 3 is older, 4 goes.
    assert_eq!(ids(&ra), vec![1]);
    assert_eq!(ids(&rb), vec![3]);
}

#[test]
fn duplicates_tie_drops_the_first_list() {
    let a = vec![active(1, 2, 4, 10)];
    let b = vec![active(2, 2, 4, 20)];
    let close = vec![vec![true]];
    let (ra, rb) = remove_duplicate_stracks(&a, &b, &close);
    assert!(ra.is_empty());
    assert_eq!(ids(&rb), vec![2]);
    let (ra, rb) = remove_duplicate_stracks(&a, &b, &vec![vec![false]]);
    assert_eq!(ids(&ra), vec![1]);
    assert_eq!(ids(&rb), vec![2]);
}

#[test]
fn split_assignment_partitions_rows_and_columns() {
    // Three rows, two columns; the solver's square answer pads column 2.
    let x = vec![1, 2, 0];
    let accept = vec![true, true, false];
    let (m, rows, cols) = split_assignment(3, 2, &x, &accept);
    assert_eq!(m, vec![(0, 1)]);
    assert_eq!(rows, vec![1, 2]);
    assert_eq!(cols, vec![0]);
}

#[test]
fn split_assignment_without_rows_or_columns() {
    let (m, rows, cols) = split_assignment(0, 3, &vec![], &vec![]);
    assert!(m.is_empty());
    assert!(rows.is_empty());
    assert_eq!(cols, vec![0, 1, 2]);
    let (m, rows, cols) = split_assignment(2, 0, &vec![], &vec![]);
    assert!(m.is_empty());
    assert_eq!(rows, vec![0, 1]);
    assert!(cols.is_empty());
}

fn assign_equal(tracks: &[STrack<i32>], dets: &[STrack<i32>], _stage: Stage) -> (Vec<usize>, Vec<bool>) {
    let n = tracks.len().max(dets.len());
    let mut x = Vec::new();
    for t in tracks {
        let c = dets.iter().position(|d| d.data == t.data).unwrap_or(n);
        x.push(c);
    }
    let accept = vec![true; x.len()];
    (x, accept)
}

fn no_overlaps(a: &[STrack<i32>], b: &[STrack<i32>]) -> Vec<Vec<bool>> {
    vec![vec![false; b.len()]; a.len()]
}

fn step(t: &mut ByteTrack<i32>, dets: &[i32], high: &[bool], low: &[bool]) -> Vec<STrack<i32>> {
    let high = high.to_vec();
    let low = low.to_vec();
    let confident = high.clone();
    t.update(
        dets,
        &high,
        &low,
        &confident,
        &|p: &i32, _followed: bool| *p,
        &assign_equal,
        &|_t: &i32, d: &i32| *d,
        &|d: &i32| *d,
        &no_overlaps,
    )
}

#[test]
fn tracker_starts_tracks_for_confident_detections() {
    let mut t: ByteTrack<i32> = ByteTrack::new(30);
    assert_eq!(t.next_frame(), 1);
    assert_eq!(t.next_track_id(), 0);
    let r = step(&mut t, &[100, 200, 300], &[true, true, false], &[false, false, true]);
    assert_eq!(ids(&r), vec![0, 1]);
    assert_eq!(r[0].det_idx(), Some(0));
    assert_eq!(r[1].det_idx(), Some(1));
    assert_eq!(r[0].frame_id(), 1);
    assert_eq!(r[0].data, 100);
    assert_eq!(t.next_frame(), 2);
    assert_eq!(t.next_track_id(), 2);
    assert_eq!(t.tracked_stracks().len(), 2);
    assert!(t.lost_stracks().is_empty());
    assert!(t.removed_stracks().is_empty());
}

#[test]
fn tracker_keeps_identities_across_frames() {
    let mut t: ByteTrack<i32> = ByteTrack::new(30);
    step(&mut t, &[100, 200], &[true, true], &[false, false]);
    let r = step(&mut t, &[200, 100], &[true, true], &[false, false]);
    assert_eq!(ids(&r), vec![0, 1]);
    // The stored tracks are kept as they were when matched again.
    assert_eq!(r[0].frame_id(), 1);
    assert_eq!(r[0].det_idx(), Some(0));
    assert_eq!(t.next_track_id(), 2);
    assert_eq!(t.next_frame(), 3);
    let r = step(&mut t, &[], &[], &[]);
    assert_eq!(ids(&r), vec![0, 1]);
    assert_eq!(t.next_frame(), 4);
    assert!(t.lost_stracks().is_empty());
}

#[test]
fn tracker_adds_new_tracks_after_known_ones() {
    let mut t: ByteTrack<i32> = ByteTrack::new(30);
    step(&mut t, &[100], &[true], &[false]);
    let r = step(&mut t, &[300, 100, 200], &[true, true, true], &[false, false, false]);
    assert_eq!(ids(&r), vec![0, 1, 2]);
    assert_eq!(r[1].det_idx(), Some(0));
    assert_eq!(r[2].det_idx(), Some(2));
    assert_eq!(r[1].start_frame(), 2);
}

#[test]
fn tracker_ignores_unconfident_detections() {
    let mut t: ByteTrack<i32> = ByteTrack::new(30);
    let r = step(&mut t, &[1, 2], &[false, false], &[true, true]);
    assert!(r.is_empty());
    assert_eq!(t.next_track_id(), 0);
    let r = step(&mut t, &[1, 2, 3], &[false, false, true], &[true, true, false]);
    assert_eq!(ids(&r), vec![0]);
    assert_eq!(r[0].det_idx(), Some(2));
}

#[test]
fn tracker_starts_only_confident_high_detections_in_order() {
    let mut t: ByteTrack<i32> = ByteTrack::new(30);
    let dets = [10, 20, 30, 40];
    let high = vec![true, true, false, true];
    let low = vec![false, false, true, false];
    let confident = vec![false, true, true, true];
    let r = t.update(
        &dets,
        &high,
        &low,
        &confident,
        &|p: &i32, _followed: bool| *p,
        &assign_equal,
        &|_t: &i32, d: &i32| *d,
        &|d: &i32| *d + 1000,
        &no_overlaps,
    );
    assert_eq!(ids(&r), vec![0, 1]);
    assert_eq!(r[0].det_idx(), Some(1));
    assert_eq!(r[1].det_idx(), Some(3));
    assert_eq!(r[0].start_frame(), 1);
    assert_eq!(r[1].frame_id(), 1);
    // A new track's payload is what `start` makes of its detection.
    assert_eq!(r[0].data, 1020);
    assert_eq!(r[1].data, 1040);
    assert_eq!(t.next_track_id(), 2);
}

#[test]
fn tracker_keeps_payloads_of_followed_tracks() {
    let mut t: ByteTrack<i32> = ByteTrack::new(30);
    step(&mut t, &[7, 8], &[true, true], &[false, false]);
    let r = step(&mut t, &[8, 9], &[true, true], &[false, false]);
    assert_eq!(ids(&r), vec![0, 1, 2]);
    assert_eq!(r[0].data, 7);
    assert_eq!(r[1].data, 8);
    assert_eq!(r[2].data, 9);
    assert_eq!(r[2].start_frame(), 2);
}
