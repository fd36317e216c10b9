//! Decoding of the WAV files the kit's samples come from. The header and
//! integer frames come from hound's parser; the library turns them into
//! per-channel frames.
use vstd::prelude::*;

use crate::loaded_sample::{is_uninterleaving, uninterleave, LoadedSample};

verus! {

/// What hound's `WavReader::new` reads from the header of the WAV file in
/// `bytes`: `(sample rate, channels, bits per sample, frames are floats)`,
/// or `None` when it refuses the bytes.
pub uninterp spec fn wav_header(bytes: Seq<u8>) -> Option<(u32, u16, u16, bool)>;

/// The interleaved frames hound's `samples::<i32>()` yields for the WAV
/// file in `bytes`, each `None` where reading that frame failed (empty when
/// hound refuses the bytes).
pub uninterp spec fn wav_int_frames(bytes: Seq<u8>) -> Seq<Option<i32>>;

/// Parses the header of a WAV file with `hound::WavReader::new` and reads
/// `WavReader::spec`. Claimed: the result is `wav_header(bytes)`, and a
/// header hound accepts has at least one channel (hound refuses files with
/// zero channels).
#[verifier::external_body]
fn read_wav_header(bytes: &[u8]) -> (r: Option<(u32, u16, u16, bool)>)
    ensures
        r == wav_header(bytes@),
        r matches Some(h) ==> h.1 > 0,
{
    match hound::WavReader::new(std::io::Cursor::new(bytes)) {
        Ok(reader) => {
            let spec = reader.spec();
            let is_float = match spec.sample_format {
                hound::SampleFormat::Float => true,
                hound::SampleFormat::Int => false,
            };
            Some((spec.sample_rate, spec.channels, spec.bits_per_sample, is_float))
        },
        Err(_) => None,
    }
}

/// Reads every frame of a WAV file as an `i32` with hound's
/// `WavReader::samples::<i32>()`, a failed read as `None`. Claimed: the
/// result is `wav_int_frames(bytes)`.
#[verifier::external_body]
fn read_wav_int_frames(bytes: &[u8]) -> (r: Vec<Option<i32>>)
    ensures
        r@ == wav_int_frames(bytes@),
{
    match hound::WavReader::new(std::io::Cursor::new(bytes)) {
        Ok(mut reader) => reader.samples::<i32>().map(|s| s.ok()).collect(),
        Err(_) => Vec::new(),
    }
}

/// The frames of a WAV file, as far as the library reads them.
pub enum WavFrames {
    /// Integer frames, split into channels.
    Int(LoadedSample<i32>),
    /// Floating-point frames, left to the caller to read.
    Float,
}

/// A decoded WAV file.
pub struct DecodedWav {
    pub sample_rate: u32,
    pub channels: u16,
    pub bits_per_sample: u16,
    pub frames: WavFrames,
}

/// A frame hound read, or 0 where reading it failed.
pub open spec fn frame_or_zero(f: Option<i32>) -> i32 {
    match f {
        Some(x) => x,
        None => 0,
    }
}

/// The frames hound read, with 0 for each that it failed to read.
pub open spec fn frames_or_zero(fs: Seq<Option<i32>>) -> Seq<i32> {
    fs.map_values(|f: Option<i32>| frame_or_zero(f))
}

/// Law: replacing failed reads by 0 keeps the number of frames, keeps every
/// frame that was read exactly as read (at any bit depth), and puts 0 only
/// where a read failed.
pub proof fn lemma_frames_or_zero(fs: Seq<Option<i32>>)
    ensures
        frames_or_zero(fs).len() == fs.len(),
        forall|i: int|
            0 <= i < fs.len() && fs[i] is Some ==> #[trigger] frames_or_zero(fs)[i] == fs[i]->0,
        forall|i: int| 0 <= i < fs.len() && fs[i] is None ==> #[trigger] frames_or_zero(fs)[i] == 0,
{
}

/// Law: in a decoded integer file with `ch` channels, frame `j` of channel
/// `c` is exactly the frame hound read at interleaved position
/// `j * ch + c`, whenever that read succeeded.
pub proof fn lemma_decoded_frame_is_read_frame(
    bytes: Seq<u8>,
    ch: int,
    s: Seq<Seq<i32>>,
    c: int,
    j: int,
    x: i32,
)
    requires
        is_uninterleaving(frames_or_zero(wav_int_frames(bytes)), ch, s),
        0 <= c < ch,
        0 <= j,
        j * ch + c < wav_int_frames(bytes).len(),
        wav_int_frames(bytes)[j * ch + c] == Some(x),
    ensures
        j < s[c].len(),
        s[c][j] == x,
{
    lemma_frames_or_zero(wav_int_frames(bytes));
    assert(crate::loaded_sample::frame_slot(ch, c, j) == j * ch + c);
}

/// Decodes the WAV file in `bytes`: `None` when hound refuses it; else its
/// sample rate, channel count and bit depth and, for an integer file, its
/// frames split into channels, 0 standing for a frame that could not be
/// read.
pub fn decode_wav(bytes: &[u8]) -> (r: Option<DecodedWav>)
    ensures
        r is None <==> wav_header(bytes@) is None,
        r matches Some(d) ==> {
            let h = wav_header(bytes@)->0;
            &&& d.sample_rate == h.0
            &&& d.channels == h.1
            &&& d.channels > 0
            &&& d.bits_per_sample == h.2
            &&& h.3 ==> d.frames is Float
            &&& !h.3 ==> (d.frames matches WavFrames::Int(s) && is_uninterleaving(
                frames_or_zero(wav_int_frames(bytes@)),
                h.1 as int,
                s@,
            ))
        },
{
    match read_wav_header(bytes) {
        None => None,
        Some((sample_rate, channels, bits_per_sample, is_float)) => {
            let frames = if is_float {
                WavFrames::Float
            } else {
                let raw = read_wav_int_frames(bytes);
                let mut interleaved: Vec<i32> = Vec::new();
                let mut i: usize = 0;
                while i < raw.len()
                    invariant
                        i <= raw@.len(),
                        interleaved@ =~= frames_or_zero(raw@).take(i as int),
                    decreases raw@.len() - i,
                {
                    match raw[i] {
                        Some(x) => interleaved.push(x),
                        None => interleaved.push(0),
                    }
                    i = i + 1;
                }
                assert(frames_or_zero(raw@).take(i as int) =~= frames_or_zero(raw@));
                WavFrames::Int(uninterleave(interleaved, channels as usize))
            };
            Some(DecodedWav { sample_rate, channels, bits_per_sample, frames })
        },
    }
}

} // verus!
