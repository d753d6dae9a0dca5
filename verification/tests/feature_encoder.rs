use wav2vec_burn::config::layer;
use wav2vec_burn::feature_encoder::feature_encoder_plan;

#[test]
fn plan_names_layers_and_chains_channels() {
    let layers = [layer(512, 10, 5), layer(256, 3, 2), layer(128, 2, 2)];
    let plan = feature_encoder_plan("encoder.conv_layers", &layers);
    assert_eq!(plan.len(), 3);
    assert_eq!(plan[0].0, "encoder.conv_layers.0");
    assert_eq!(plan[1].0, "encoder.conv_layers.1");
    assert_eq!(plan[2].0, "encoder.conv_layers.2");
    assert_eq!(plan[0].1, 1);
    assert_eq!(plan[1].1, 512);
    assert_eq!(plan[2].1, 256);
    assert_eq!((plan[2].2.output_len, plan[2].2.kernel_size, plan[2].2.stride), (128, 2, 2));
}

#[test]
fn plan_numbers_layers_in_decimal() {
    let layers: Vec<_> = (0..12).map(|i| layer(i + 1, 3, 2)).collect();
    let plan = feature_encoder_plan("p", &layers);
    assert_eq!(plan[9].0, "p.9");
    assert_eq!(plan[10].0, "p.10");
    assert_eq!(plan[11].0, "p.11");
    assert_eq!(plan[11].1, 11);
    assert!(feature_encoder_plan("p", &[]).is_empty());
}
