//! A cursor that walks once through one loaded sample.
use vstd::prelude::*;

verus! {

/// One triggered sample: which sample it plays (`(group, index)` in the
/// bank), how far it has got, its length and the gain it is played at.
#[derive(Copy, PartialEq, PartialOrd, Debug)]
pub struct PlayingSample<G> {
    pub sample: (usize, usize),
    pub position: usize,
    pub sample_len: usize,
    pub gain: G,
}

impl<G: Clone> Clone for PlayingSample<G> {
    fn clone(&self) -> (c: Self)
        ensures
            c.sample == self.sample,
            c.position == self.position,
            c.sample_len == self.sample_len,
            call_ensures(G::clone, (&self.gain,), c.gain),
    {
        PlayingSample {
            sample: self.sample,
            position: self.position,
            sample_len: self.sample_len,
            gain: self.gain.clone(),
        }
    }
}

impl<G> PlayingSample<G> {
    /// Whether the cursor has reached the end of its sample.
    pub open spec fn spec_is_done(&self) -> bool {
        self.position >= self.sample_len
    }

    /// The cursor after one step: it moves forward by one frame unless
    /// it is already at or past the end.
    pub open spec fn stepped(self) -> Self {
        if self.position < self.sample_len {
            PlayingSample { position: (self.position + 1) as usize, ..self }
        } else {
            self
        }
    }

    /// The frame index one step hands out: the current position, or
    /// nothing once the end is reached.
    pub open spec fn step_result(self) -> Option<usize> {
        if self.position < self.sample_len {
            Some(self.position)
        } else {
            None
        }
    }

    /// The cursor after `k` steps.
    pub open spec fn after_steps(self, k: nat) -> Self
        decreases k,
    {
        if k == 0 {
            self
        } else {
            self.after_steps((k - 1) as nat).stepped()
        }
    }

    /// A cursor at the start of sample `sample`, `sample_len` frames long.
    pub fn new(sample: (usize, usize), sample_len: usize, gain: G) -> (s: Self)
        ensures
            s.sample == sample,
            s.position == 0,
            s.sample_len == sample_len,
            s.gain == gain,
    {
        PlayingSample { sample, position: 0, sample_len, gain }
    }

    /// True once every frame of the sample has been handed out.
    pub fn is_done(&self) -> (b: bool)
        ensures
            b == self.spec_is_done(),
    {
        self.position >= self.sample_len
    }

    /// Hands out the current frame index and moves to the next frame;
    /// `None` once the end of the sample is reached.
    pub fn step(&mut self) -> (r: Option<usize>)
        ensures
            r == old(self).step_result(),
            *final(self) == old(self).stepped(),
    {
        let sample_i = self.position;
        if sample_i >= self.sample_len {
            return None;
        } else {
            self.position += 1;
        }
        Some(sample_i)
    }
}

/// Stepping a cursor `k` times from position `p` (with `p` no further than
/// the end) leaves it at `min(p + k, len)`, with the same sample, length
/// and gain.
pub proof fn lemma_position_after_steps<G>(s: PlayingSample<G>, k: nat)
    requires
        s.position <= s.sample_len,
    ensures
        s.after_steps(k).position == if s.position + k <= s.sample_len {
            s.position + k
        } else {
            s.sample_len as int
        },
        s.after_steps(k).sample == s.sample,
        s.after_steps(k).sample_len == s.sample_len,
        s.after_steps(k).gain == s.gain,
    decreases k,
{
    if k > 0 {
        lemma_position_after_steps(s, (k - 1) as nat);
    }
}

/// A cursor started at the beginning of a sample of `len` frames hands out
/// the frames `0, 1, ..., len - 1` on its first `len` steps, one each, and
/// nothing on every later step; it reports done exactly from the `len`-th
/// step on.
pub proof fn lemma_plays_each_frame_once<G>(s: PlayingSample<G>, k: nat)
    requires
        s.position == 0,
    ensures
        s.after_steps(k).step_result() == if k < s.sample_len {
            Some(k as usize)
        } else {
            None::<usize>
        },
        s.after_steps(k).spec_is_done() == (k >= s.sample_len),
{
    lemma_position_after_steps(s, k);
}

} // verus!
