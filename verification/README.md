# wav2vec_burn

Speech transcription with Meta's wav2vec 2.0 on the Burn ML framework. The
logic around the neural network is verified with Verus; the tensor math, audio
decoding and file and network I/O stay ordinary Rust.

## Layout

- `src/` — the verified library:
  - `decoder` — CTC beam-search decoding: beams (`decoder/beam.rs`), the set of
    beams of a timestep found again by prefix (`decoder/beams.rs`), and the
    decoder with its step, pruning and transcription clean-up (`decoder.rs`).
    The specification of one timestep is `next_beams`.
  - `util/log_space` — log-space probabilities held as `f32` bit patterns;
    zero tests, the `total_cmp` order and the branching of log-space sums are
    verified, the two floating-point kernels are passed in by the caller.
  - `weights` — the safetensors weight index: header parsing (with a check
    that the announced tensor data cannot overflow `usize`), tensor lookup
    with shape checks, convolution weight selection, matrix transposition.
  - `feature_encoder` — the layer plan of the convolutional feature encoder:
    each layer's weight name and input channel count.
  - `evaluation` — word splitting and word-level edit distance.
  - `test_data` — the test data directory and LibriSpeech transcript lines.
  - `audio`, `config`, `text` — small helpers.
- `tests/` — tests of the library, with the floating-point kernels written out.
- `app/` — the `transcribe` program: command line, audio loading and
  resampling, model download, and the Burn model (feature encoder,
  transformer), which call into the library.
