use bytes::Bytes;
use safetensors::Dtype;
use wav2vec_burn::weights::{transposed, CreateError, LoadedTensor, Weights};

fn safetensors_data() -> Vec<u8> {
    let header = r#"{"b":{"dtype":"F32","shape":[2],"data_offsets":[0,8]},"w":{"dtype":"U8","shape":[2,3],"data_offsets":[8,14]}}"#;
    let mut data = (header.len() as u64).to_le_bytes().to_vec();
    data.extend_from_slice(header.as_bytes());
    data.extend_from_slice(&1.0f32.to_le_bytes());
    data.extend_from_slice(&2.0f32.to_le_bytes());
    data.extend_from_slice(&[1, 2, 3, 4, 5, 6]);
    data
}

#[test]
fn loads_tensor_of_expected_shape() {
    let weights = Weights::from_safetensors(Bytes::from(safetensors_data())).unwrap();
    match weights.load_tensor("w", vec![2, 3]).ok().unwrap() {
        LoadedTensor::Stored { bytes, shape, dtype } => {
            assert_eq!(&bytes[..], &[1, 2, 3, 4, 5, 6]);
            assert_eq!(shape, vec![2, 3]);
            assert_eq!(dtype, Dtype::U8);
        }
        LoadedTensor::Zeros { .. } => panic!("stored tensor expected"),
    }
    match weights.load_tensor("b", vec![2]).ok().unwrap() {
        LoadedTensor::Stored { bytes, dtype, .. } => {
            assert_eq!(&bytes[..4], &1.0f32.to_le_bytes());
            assert_eq!(&bytes[4..], &2.0f32.to_le_bytes());
            assert_eq!(dtype, Dtype::F32);
        }
        LoadedTensor::Zeros { .. } => panic!("stored tensor expected"),
    }
}

#[test]
fn reports_shape_mismatch() {
    let weights = Weights::from_safetensors(Bytes::from(safetensors_data())).unwrap();
    match weights.load_tensor("w", vec![3, 2]) {
        Err(CreateError::TensorShape { expected, got }) => {
            assert_eq!(expected, vec![3, 2]);
            assert_eq!(got, vec![2, 3]);
        }
        _ => panic!("shape mismatch expected"),
    }
}

#[test]
fn reports_missing_tensor() {
    let weights = Weights::from_safetensors(Bytes::from(safetensors_data())).unwrap();
    match weights.load_tensor("missing", vec![1]) {
        Err(CreateError::TensorNotFound(name)) => assert_eq!(name, "missing"),
        _ => panic!("missing tensor expected"),
    }
}

#[test]
fn dummy_weights_are_zeros() {
    match Weights::Dummy.load_tensor("anything", vec![4, 5]).ok().unwrap() {
        LoadedTensor::Zeros { shape } => assert_eq!(shape, vec![4, 5]),
        LoadedTensor::Stored { .. } => panic!("zeros expected"),
    }
}

#[test]
fn rejects_truncated_data() {
    let mut data = safetensors_data();
    data.pop();
    assert!(Weights::from_safetensors(Bytes::from(data)).is_err());
    assert!(Weights::from_safetensors(Bytes::from(vec![1u8, 2, 3])).is_err());
}

#[test]
fn transposes_row_major_matrix() {
    // [[1, 2, 3], [4, 5, 6]] becomes [[1, 4], [2, 5], [3, 6]]
    assert_eq!(transposed(&[1, 2, 3, 4, 5, 6], 2, 3), vec![1, 4, 2, 5, 3, 6]);
    assert_eq!(transposed::<u8>(&[], 0, 7), Vec::<u8>::new());
}

#[test]
fn rejects_header_whose_data_ends_past_usize() {
    // Eight contiguous tensors whose data would end 8 bytes short of 2^64.
    let size: u64 = (1u64 << 61) - 1;
    let entries: Vec<String> = (0..8u64)
        .map(|k| {
            format!(
                r#""t{}":{{"dtype":"U8","shape":[{}],"data_offsets":[{},{}]}}"#,
                k,
                size,
                k * size,
                (k + 1) * size
            )
        })
        .collect();
    let header = format!("{{{}}}", entries.join(","));
    let mut data = (header.len() as u64).to_le_bytes().to_vec();
    data.extend_from_slice(header.as_bytes());
    assert!(Weights::from_safetensors(Bytes::from(data)).is_err());
}
