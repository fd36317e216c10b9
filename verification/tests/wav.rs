use one_nine::wav::{decode_wav, WavFrames};

fn int_wav(channels: u16, sample_rate: u32, bits: u16, frames: &[i32]) -> Vec<u8> {
    let spec = hound::WavSpec {
        channels,
        sample_rate,
        bits_per_sample: bits,
        sample_format: hound::SampleFormat::Int,
    };
    let mut cursor = std::io::Cursor::new(Vec::new());
    {
        let mut writer = hound::WavWriter::new(&mut cursor, spec).unwrap();
        for f in frames {
            writer.write_sample(*f).unwrap();
        }
        writer.finalize().unwrap();
    }
    cursor.into_inner()
}

#[test]
fn decode_tiny_mono_wav() {
    let bytes = int_wav(1, 44_100, 16, &[1, -2, 3]);
    let d = decode_wav(&bytes).unwrap();
    assert_eq!(d.sample_rate, 44_100);
    assert_eq!(d.channels, 1);
    assert_eq!(d.bits_per_sample, 16);
    match d.frames {
        WavFrames::Int(s) => assert_eq!(s.0, vec![vec![1, -2, 3]]),
        WavFrames::Float => panic!("integer file read as float"),
    }
}

#[test]
fn decode_stereo_wav_splits_channels() {
    let bytes = int_wav(2, 48_000, 8, &[1, 10, 2, 20, -3, -30]);
    let d = decode_wav(&bytes).unwrap();
    assert_eq!(d.sample_rate, 48_000);
    assert_eq!(d.channels, 2);
    match d.frames {
        WavFrames::Int(s) => assert_eq!(s.0, vec![vec![1, 2, -3], vec![10, 20, -30]]),
        WavFrames::Float => panic!("integer file read as float"),
    }
}

#[test]
fn decode_float_wav_leaves_frames_to_caller() {
    let spec = hound::WavSpec {
        channels: 1,
        sample_rate: 22_050,
        bits_per_sample: 32,
        sample_format: hound::SampleFormat::Float,
    };
    let mut cursor = std::io::Cursor::new(Vec::new());
    {
        let mut writer = hound::WavWriter::new(&mut cursor, spec).unwrap();
        writer.write_sample(0.5f32).unwrap();
        writer.finalize().unwrap();
    }
    let bytes = cursor.into_inner();
    let d = decode_wav(&bytes).unwrap();
    assert_eq!(d.sample_rate, 22_050);
    assert_eq!(d.bits_per_sample, 32);
    assert!(matches!(d.frames, WavFrames::Float));
}

#[test]
fn decode_rejects_garbage() {
    assert!(decode_wav(b"not a wav file at all").is_none());
    assert!(decode_wav(&[]).is_none());
}
