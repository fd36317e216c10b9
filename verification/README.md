# one_nine

The sample-playback engine of a 909-style drum machine plugin, verified
with Verus.

- `src/playing_sample.rs`: a cursor that walks once through one sample.
- `src/loaded_sample.rs`: decoded audio per channel; splitting interleaved
  frames into channels; dropping a resampler's leading delay.
- `src/wav.rs`: WAV decoding through hound, with integer frames split into
  channels.
- `src/one_nine.rs`: the voice engine: the note-to-drum map, the sample
  bank, note-on / note-off, and what each output frame mixes.
- `app/`: the nih-plug plugin around the engine: parameters, embedded
  sample files, floating-point scaling, resampling and mixing.
