use one_nine::loaded_sample::LoadedSample;
use one_nine::one_nine::OneNine;

/// A bank of 8 groups; group g has `g + 1` samples, sample i of group g has
/// `i + 2` frames whose values are `100 * g + 10 * i + frame`.
fn bank() -> Vec<Vec<LoadedSample<i32>>> {
    (0..8)
        .map(|g| {
            (0..(g + 1))
                .map(|i| {
                    let frames: Vec<i32> = (0..(i + 2)).map(|f| (100 * g + 10 * i + f) as i32).collect();
                    LoadedSample(vec![frames.clone(), frames])
                })
                .collect()
        })
        .collect()
}

fn slots(gain: u32) -> Vec<(i32, u32)> {
    (0..8).map(|g| (0i32, gain + g as u32)).collect()
}

fn engine() -> OneNine<i32, u32> {
    let mut e = OneNine::default();
    e.set_samples(bank());
    e
}

#[test]
fn default_note_map() {
    let e: OneNine<f32, f32> = OneNine::default();
    assert_eq!(e.voice_group(36), Some(0));
    assert_eq!(e.voice_group(57), Some(1));
    assert_eq!(e.voice_group(39), Some(2));
    assert_eq!(e.voice_group(42), Some(3));
    assert_eq!(e.voice_group(46), Some(4));
    assert_eq!(e.voice_group(59), Some(5));
    assert_eq!(e.voice_group(37), Some(6));
    assert_eq!(e.voice_group(40), Some(7));
    assert_eq!(e.voice_group(60), None);
    assert_eq!(e.voice_group(0), None);
    assert!(e.playing_samples().is_empty());
}

#[test]
fn note_on_starts_voice() {
    let mut e = engine();
    let mut s = slots(10);
    s[7].0 = 3;
    assert!(e.can_note_on(40, &s));
    e.note_on(40, &s);
    let v = e.playing_samples();
    assert_eq!(v.len(), 1);
    assert_eq!(v[0].sample, (7, 3));
    assert_eq!(v[0].position, 0);
    assert_eq!(v[0].sample_len, 5);
    assert_eq!(v[0].gain, 17);
}

#[test]
fn unmapped_note_changes_nothing() {
    let mut e = engine();
    e.note_on(36, &slots(1));
    e.note_on(61, &slots(1));
    e.note_off(61);
    assert_eq!(e.playing_samples().len(), 1);
    assert_eq!(e.playing_samples()[0].sample, (0, 0));
}

#[test]
fn retrigger_restarts_group() {
    let mut e = engine();
    e.note_on(36, &slots(1));
    e.note_on(57, &slots(1));
    e.next_frame();
    e.note_on(36, &slots(5));
    let v = e.playing_samples();
    assert_eq!(v.len(), 2);
    assert_eq!(v[0].sample, (1, 0));
    assert_eq!(v[0].position, 1);
    assert_eq!(v[1].sample, (0, 0));
    assert_eq!(v[1].position, 0);
    assert_eq!(v[1].gain, 5);
}

#[test]
fn note_off_stops_group_only() {
    let mut e = engine();
    e.note_on(36, &slots(1));
    e.note_on(40, &slots(1));
    e.note_off(36);
    let v = e.playing_samples();
    assert_eq!(v.len(), 1);
    assert_eq!(v[0].sample.0, 7);
}

#[test]
fn note_off_after_note_on_same_as_note_off() {
    let mut e = engine();
    e.note_on(42, &slots(1));
    e.note_on(46, &slots(1));
    e.note_off(46);
    let v = e.playing_samples();
    assert_eq!(v.len(), 1);
    assert_eq!(v[0].sample.0, 3);
}

#[test]
fn next_frame_plays_through_sample_once() {
    let mut e = engine();
    let mut s = slots(3);
    s[1].0 = 1; // group 1 sample 1: 3 frames, 110, 111, 112
    e.note_on(57, &s);
    assert_eq!(e.next_frame(), vec![(110, 4)]);
    assert_eq!(e.next_frame(), vec![(111, 4)]);
    assert_eq!(e.playing_samples().len(), 1);
    assert_eq!(e.next_frame(), vec![(112, 4)]);
    assert!(e.playing_samples().is_empty());
    assert_eq!(e.next_frame(), vec![]);
}

#[test]
fn next_frame_mixes_voices_in_order() {
    let mut e = engine();
    e.note_on(59, &slots(0)); // group 5 sample 0: 500, 501
    e.note_on(36, &slots(0)); // group 0 sample 0: 0, 1
    assert_eq!(e.next_frame(), vec![(500, 5), (0, 0)]);
    assert_eq!(e.next_frame(), vec![(501, 5), (1, 0)]);
    assert!(e.playing_samples().is_empty());
}

#[test]
fn voices_never_exceed_groups() {
    let mut e = engine();
    for note in [36u8, 57, 39, 42, 46, 59, 37, 40, 36, 40, 57] {
        e.note_on(note, &slots(1));
    }
    assert_eq!(e.playing_samples().len(), 8);
}

#[test]
fn can_note_on_rejects_bad_choices() {
    let e = engine();
    let mut s = slots(1);
    s[0].0 = -1;
    assert!(!e.can_note_on(36, &s));
    s[0].0 = 1; // group 0 has only one sample
    assert!(!e.can_note_on(36, &s));
    assert!(!e.can_note_on(40, &s[..3]));
    assert!(e.can_note_on(99, &s));
    let empty: OneNine<i32, u32> = OneNine::default();
    assert!(!empty.can_note_on(36, &slots(1)));
}

#[test]
fn can_mix_frame_after_bank_change() {
    let mut e = engine();
    let mut s = slots(1);
    s[7].0 = 7; // 9 frames
    e.note_on(40, &s);
    for _ in 0..4 {
        e.next_frame();
    }
    assert!(e.can_mix_frame());
    let mut short = bank();
    short[7][7] = LoadedSample(vec![vec![1, 2, 3]]);
    e.set_samples(short);
    assert!(!e.can_mix_frame());
    e.note_off(40);
    assert!(e.can_mix_frame());
}
