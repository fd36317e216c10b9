//! Decoded audio held per channel, and the two reshapings the loader
//! applies to it: splitting interleaved frames into channels and dropping
//! the leading delay that resampling introduces.
use vstd::prelude::*;

verus! {

/// One decoded sample: a list of channels, each a list of frames.
#[derive(Clone, Debug)]
pub struct LoadedSample<T>(pub Vec<Vec<T>>);

impl<T> View for LoadedSample<T> {
    type V = Seq<Seq<T>>;

    open spec fn view(&self) -> Seq<Seq<T>> {
        self.0@.map_values(|c: Vec<T>| c@)
    }
}

impl<T> Default for LoadedSample<T> {
    /// A sample with no channels.
    fn default() -> (s: Self)
        ensures
            s@ == Seq::<Seq<T>>::empty(),
    {
        let s = LoadedSample(Vec::new());
        assert(s@ =~= Seq::<Seq<T>>::empty());
        s
    }
}

/// Position, in an interleaved stream of `channels` channels, of frame `j`
/// of channel `c`.
pub open spec fn frame_slot(channels: int, c: int, j: int) -> int {
    j * channels + c
}

/// `out` holds, as channel `c`, the frames `c, c + channels, c + 2 * channels, ...`
/// of the interleaved stream `s`, as many as `s` has.
pub open spec fn is_uninterleaving<T>(s: Seq<T>, channels: int, out: Seq<Seq<T>>) -> bool {
    &&& out.len() == channels
    &&& forall|c: int, j: int|
        0 <= c < channels && 0 <= j ==> (j < out[c].len() <==> #[trigger] frame_slot(
            channels,
            c,
            j,
        ) < s.len())
    &&& forall|c: int, j: int|
        0 <= c < channels && 0 <= j < out[c].len() ==> #[trigger] out[c][j] == s[frame_slot(
            channels,
            c,
            j,
        )]
}

proof fn lemma_mul_mono(a: int, b: int, m: int)
    by (nonlinear_arith)
    requires
        0 <= a <= b,
        0 <= m,
    ensures
        a * m <= b * m,
{
}

proof fn lemma_mul_succ(a: int, m: int)
    by (nonlinear_arith)
    ensures
        (a + 1) * m == a * m + m,
{
}

/// Law: in an uninterleaving into `ch` channels, frame `i` of the
/// interleaved stream is frame `i / ch` of channel `i % ch`; so every input
/// frame lands in the output, at that place.
pub proof fn lemma_every_sample_lands<T>(s: Seq<T>, ch: int, out: Seq<Seq<T>>, i: int)
    requires
        ch > 0,
        is_uninterleaving(s, ch, out),
        0 <= i < s.len(),
    ensures
        0 <= i % ch < out.len(),
        i / ch < out[i % ch].len(),
        out[i % ch][i / ch] == s[i],
{
    vstd::arithmetic::div_mod::lemma_fundamental_div_mod(i, ch);
    vstd::arithmetic::div_mod::lemma_mod_pos_bound(i, ch);
    vstd::arithmetic::div_mod::lemma_div_pos_is_pos(i, ch);
    vstd::arithmetic::mul::lemma_mul_is_commutative(ch, i / ch);
    assert(frame_slot(ch, i % ch, i / ch) == i);
}

/// Splits interleaved frames `[a, b, a, b, ...]` into one list per channel
/// `[[a, a, ...], [b, b, ...]]`. A trailing partial frame contributes to the
/// channels it reaches.
pub fn uninterleave<T: Copy>(samples: Vec<T>, channels: usize) -> (out: LoadedSample<T>)
    requires
        channels > 0,
    ensures
        is_uninterleaving(samples@, channels as int, out@),
{
    let n = samples.len();
    let ghost ch = channels as int;
    let mut new_samples: Vec<Vec<T>> = Vec::new();
    let mut c: usize = 0;
    while c < channels
        invariant
            c <= channels,
            n == samples@.len(),
            ch == channels as int,
            channels > 0,
            new_samples@.len() == c,
            forall|c2: int, j: int|
                0 <= c2 < c && 0 <= j ==> (j < new_samples@[c2]@.len() <==> #[trigger] frame_slot(
                    ch,
                    c2,
                    j,
                ) < n),
            forall|c2: int, j: int|
                0 <= c2 < c && 0 <= j < new_samples@[c2]@.len() ==> #[trigger] new_samples@[c2]@[j]
                    == samples@[frame_slot(ch, c2, j)],
        decreases channels - c,
    {
        let mut lane: Vec<T> = Vec::new();
        let mut idx: usize = c;
        while idx < n
            invariant
                n == samples@.len(),
                ch == channels as int,
                channels > 0,
                c < channels,
                idx < n ==> idx as int == frame_slot(ch, c as int, lane@.len() as int),
                idx >= n ==> frame_slot(ch, c as int, lane@.len() as int) >= n,
                forall|j: int|
                    0 <= j < lane@.len() ==> #[trigger] frame_slot(ch, c as int, j) < n,
                forall|j: int|
                    0 <= j < lane@.len() ==> #[trigger] lane@[j] == samples@[frame_slot(
                        ch,
                        c as int,
                        j,
                    )],
            decreases n - idx,
        {
            proof {
                lemma_mul_succ(lane@.len() as int, ch);
            }
            lane.push(samples[idx]);
            if n - idx > channels {
                idx = idx + channels;
            } else {
                idx = n;
            }
        }
        proof {
            assert forall|j: int| 0 <= j implies (j < lane@.len() <==> #[trigger] frame_slot(
                ch,
                c as int,
                j,
            ) < n) by {
                if j >= lane@.len() {
                    lemma_mul_mono(lane@.len() as int, j, ch);
                }
            }
        }
        new_samples.push(lane);
        c = c + 1;
    }
    LoadedSample(new_samples)
}

/// Drops the first `delay` frames of every channel (the silence a resampler
/// puts in front of its output).
pub fn drop_output_delay<T: Copy>(waves: Vec<Vec<T>>, delay: usize) -> (out: LoadedSample<T>)
    requires
        forall|c: int| 0 <= c < waves@.len() ==> delay <= #[trigger] waves@[c]@.len(),
    ensures
        out@.len() == waves@.len(),
        forall|c: int| 0 <= c < waves@.len() ==> #[trigger] out@[c] == waves@[c]@.skip(delay as int),
{
    let mut channels: Vec<Vec<T>> = Vec::new();
    let mut c: usize = 0;
    while c < waves.len()
        invariant
            c <= waves@.len(),
            channels@.len() == c,
            forall|c2: int| 0 <= c2 < waves@.len() ==> delay <= #[trigger] waves@[c2]@.len(),
            forall|c2: int| 0 <= c2 < c ==> #[trigger] channels@[c2]@ == waves@[c2]@.skip(delay as int),
        decreases waves@.len() - c,
    {
        let wave = &waves[c];
        let mut kept: Vec<T> = Vec::new();
        let mut k: usize = delay;
        while k < wave.len()
            invariant
                delay <= k <= wave@.len(),
                kept@ =~= wave@.subrange(delay as int, k as int),
            decreases wave@.len() - k,
        {
            kept.push(wave[k]);
            k = k + 1;
        }
        assert(kept@ =~= wave@.skip(delay as int));
        channels.push(kept);
        c = c + 1;
    }
    let out = LoadedSample(channels);
    assert forall|c2: int| 0 <= c2 < waves@.len() implies #[trigger] out@[c2] == waves@[c2]@.skip(delay as int) by {
        assert(out@[c2] == channels@[c2]@);
    }
    out
}

} // verus!
