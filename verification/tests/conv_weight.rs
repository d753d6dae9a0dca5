use bytes::Bytes;
use wav2vec_burn::weights::{ConvWeight, CreateError, LoadedTensor, Weights};

/// Safetensors data holding zero-filled F32 tensors of the given names and shapes.
fn weights_with(tensors: &[(&str, &[usize])]) -> Weights {
    let mut entries = Vec::new();
    let mut offset = 0usize;
    for (name, shape) in tensors {
        let len = 4 * shape.iter().product::<usize>();
        let dims: Vec<String> = shape.iter().map(|d| d.to_string()).collect();
        entries.push(format!(
            r#""{name}":{{"dtype":"F32","shape":[{}],"data_offsets":[{offset},{}]}}"#,
            dims.join(","),
            offset + len
        ));
        offset += len;
    }
    let header = format!("{{{}}}", entries.join(","));
    let mut data = (header.len() as u64).to_le_bytes().to_vec();
    data.extend_from_slice(header.as_bytes());
    data.extend(std::iter::repeat(0u8).take(offset));
    Weights::from_safetensors(Bytes::from(data)).unwrap()
}

fn shape_of(tensor: &LoadedTensor) -> Vec<usize> {
    match tensor {
        LoadedTensor::Stored { shape, .. } | LoadedTensor::Zeros { shape } => shape.clone(),
    }
}

#[test]
fn merged_weight_is_used_when_present() {
    let weights = weights_with(&[("conv.weight", &[4, 3, 5])]);
    match weights.load_conv1d_weight("conv", 4, 6, 2, 5).ok().unwrap() {
        ConvWeight::Merged(weight) => assert_eq!(shape_of(&weight), vec![4, 3, 5]),
        ConvWeight::Normalized { .. } => panic!("merged weight expected"),
    }
}

#[test]
fn weight_norm_per_kernel_position() {
    let weights = weights_with(&[("pos.weight_g", &[1, 1, 3]), ("pos.weight_v", &[4, 2, 3])]);
    match weights.load_conv1d_weight("pos", 4, 4, 2, 3).ok().unwrap() {
        ConvWeight::Normalized { direction, norm, per_kernel_position } => {
            assert!(per_kernel_position);
            assert_eq!(shape_of(&direction), vec![4, 2, 3]);
            assert_eq!(shape_of(&norm), vec![1, 1, 3]);
        }
        ConvWeight::Merged(_) => panic!("normalized weight expected"),
    }
}

#[test]
fn weight_norm_per_filter() {
    let weights = weights_with(&[("pos.weight_g", &[4, 1, 1]), ("pos.weight_v", &[4, 2, 3])]);
    match weights.load_conv1d_weight("pos", 4, 4, 2, 3).ok().unwrap() {
        ConvWeight::Normalized { norm, per_kernel_position, .. } => {
            assert!(!per_kernel_position);
            assert_eq!(shape_of(&norm), vec![4, 1, 1]);
        }
        ConvWeight::Merged(_) => panic!("normalized weight expected"),
    }
}

#[test]
fn errors_of_conv_weight_loading() {
    let weights = weights_with(&[("conv.weight", &[4, 3, 5])]);
    match weights.load_conv1d_weight("conv", 4, 6, 2, 7) {
        Err(CreateError::TensorShape { expected, got }) => {
            assert_eq!(expected, vec![4, 3, 7]);
            assert_eq!(got, vec![4, 3, 5]);
        }
        _ => panic!("shape error expected"),
    }
    match weights.load_conv1d_weight("other", 4, 6, 2, 5) {
        Err(CreateError::TensorNotFound(name)) => assert_eq!(name, "other.weight_v"),
        _ => panic!("missing direction expected"),
    }
    let weights = weights_with(&[("pos.weight_g", &[2, 2, 2]), ("pos.weight_v", &[4, 2, 3])]);
    match weights.load_conv1d_weight("pos", 4, 4, 2, 3) {
        Err(CreateError::TensorShape { expected, got }) => {
            assert_eq!(expected, vec![1, 1, 3]);
            assert_eq!(got, vec![2, 2, 2]);
        }
        _ => panic!("norm shape error expected"),
    }
    let weights = weights_with(&[("pos.weight_v", &[4, 2, 3])]);
    match weights.load_conv1d_weight("pos", 4, 4, 2, 3) {
        Err(CreateError::TensorNotFound(name)) => assert_eq!(name, "pos.weight_g"),
        _ => panic!("missing norm expected"),
    }
}

#[test]
fn dummy_weights_give_a_merged_zero_weight() {
    match Weights::Dummy.load_conv1d_weight("conv", 8, 4, 1, 3).ok().unwrap() {
        ConvWeight::Merged(LoadedTensor::Zeros { shape }) => assert_eq!(shape, vec![8, 4, 3]),
        _ => panic!("zeros expected"),
    }
}
