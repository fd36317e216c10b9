use one_nine::loaded_sample::{drop_output_delay, uninterleave, LoadedSample};

#[test]
fn uninterleave_splits_stereo() {
    // [a, b, a, b, ...] becomes [[a, a, ...], [b, b, ...]]
    let out = uninterleave(vec![1, 10, 2, 20, 3, 30], 2);
    assert_eq!(out.0, vec![vec![1, 2, 3], vec![10, 20, 30]]);
}

#[test]
fn uninterleave_mono_is_identity() {
    let out = uninterleave(vec![5, 6, 7], 1);
    assert_eq!(out.0, vec![vec![5, 6, 7]]);
}

#[test]
fn uninterleave_partial_last_frame() {
    let out = uninterleave(vec![1, 2, 3, 4, 5, 6, 7], 3);
    assert_eq!(out.0, vec![vec![1, 4, 7], vec![2, 5], vec![3, 6]]);
}

#[test]
fn uninterleave_empty_input_gives_empty_channels() {
    let out = uninterleave(Vec::<f32>::new(), 2);
    assert_eq!(out.0.len(), 2);
    assert!(out.0[0].is_empty());
    assert!(out.0[1].is_empty());
}

#[test]
fn uninterleave_more_channels_than_frames() {
    let out = uninterleave(vec![9], 3);
    assert_eq!(out.0, vec![vec![9], vec![], vec![]]);
}

#[test]
fn uninterleave_every_sample_lands() {
    let input: Vec<u32> = (0..24).collect();
    let ch = 5;
    let out = uninterleave(input.clone(), ch);
    for (i, x) in input.iter().enumerate() {
        assert_eq!(out.0[i % ch][i / ch], *x);
    }
    let total: usize = out.0.iter().map(|c| c.len()).sum();
    assert_eq!(total, input.len());
}

#[test]
fn drop_output_delay_trims_each_channel() {
    let out = drop_output_delay(vec![vec![0, 0, 1, 2], vec![0, 0, 3]], 2);
    assert_eq!(out.0, vec![vec![1, 2], vec![3]]);
}

#[test]
fn drop_output_delay_zero_keeps_all() {
    let out = drop_output_delay(vec![vec![4, 5]], 0);
    assert_eq!(out.0, vec![vec![4, 5]]);
}

#[test]
fn drop_output_delay_whole_channel() {
    let out = drop_output_delay(vec![vec![1, 2, 3]], 3);
    assert_eq!(out.0, vec![Vec::<i32>::new()]);
}

#[test]
fn loaded_sample_default_has_no_channels() {
    let s: LoadedSample<f32> = LoadedSample::default();
    assert!(s.0.is_empty());
}
