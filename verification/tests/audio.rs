use wav2vec_burn::audio::{audio_format, AudioFormat};
use wav2vec_burn::config::layer;

#[test]
fn audio_format_by_extension_ignores_ascii_case() {
    assert_eq!(audio_format("flac"), Some(AudioFormat::Flac));
    assert_eq!(audio_format("FLAC"), Some(AudioFormat::Flac));
    assert_eq!(audio_format("Wav"), Some(AudioFormat::Wav));
    assert_eq!(audio_format("mp3"), None);
    assert_eq!(audio_format(""), None);
    assert_eq!(audio_format("wave"), None);
}

#[test]
fn layer_config_holds_its_values() {
    let config = layer(512, 10, 5);
    assert_eq!((config.output_len, config.kernel_size, config.stride), (512, 10, 5));
}
