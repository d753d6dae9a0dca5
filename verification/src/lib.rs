//! Speech transcription with `wav2vec 2.0`: the CTC beam-search decoder, the
//! safetensors weight index, and the text processing around them.

pub mod audio;
pub mod config;
pub mod decoder;
pub mod evaluation;
pub mod feature_encoder;
pub mod test_data;
pub mod text;
pub mod util;
pub mod weights;
