use one_nine::playing_sample::PlayingSample;

#[test]
fn new_starts_at_first_frame() {
    let s = PlayingSample::new((2, 1), 5, 0.5f32);
    assert_eq!(s.sample, (2, 1));
    assert_eq!(s.position, 0);
    assert_eq!(s.sample_len, 5);
    assert_eq!(s.gain, 0.5f32);
    assert!(!s.is_done());
}

#[test]
fn step_hands_out_each_frame_once() {
    let mut s = PlayingSample::new((0, 0), 3, 1u32);
    assert_eq!(s.step(), Some(0));
    assert_eq!(s.step(), Some(1));
    assert!(!s.is_done());
    assert_eq!(s.step(), Some(2));
    assert!(s.is_done());
    assert_eq!(s.step(), None);
    assert_eq!(s.step(), None);
    assert_eq!(s.position, 3);
}

#[test]
fn empty_sample_is_done_at_once() {
    let mut s = PlayingSample::new((4, 0), 0, 1u32);
    assert!(s.is_done());
    assert_eq!(s.step(), None);
    assert_eq!(s.position, 0);
}

#[test]
fn step_past_end_keeps_position() {
    let mut s = PlayingSample::new((1, 1), 2, 1u32);
    s.position = 7;
    assert!(s.is_done());
    assert_eq!(s.step(), None);
    assert_eq!(s.position, 7);
}

#[test]
fn clone_keeps_fields() {
    let s = PlayingSample::new((3, 2), 9, 0.25f32);
    let c = s.clone();
    assert_eq!(c.sample, (3, 2));
    assert_eq!(c.position, 0);
    assert_eq!(c.sample_len, 9);
    assert_eq!(c.gain, 0.25f32);
}
