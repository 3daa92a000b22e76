use inferno::checkpoint::{decode_checkpoint, encode_checkpoint, read_u32, CheckpointError, ParamData};

fn param(shape: Vec<usize>, values: &[f32]) -> ParamData {
    ParamData { shape, bits: values.iter().map(|v| v.to_bits()).collect() }
}

fn values(bits: &[u32]) -> Vec<f32> {
    bits.iter().map(|&b| f32::from_bits(b)).collect()
}

#[test]
fn save_then_load_round_trips_parameter_values() {
    let saved = vec![param(vec![2, 2], &[1.0, 2.0, 3.0, 4.0]), param(vec![2], &[5.0, 6.0])];
    let bytes = encode_checkpoint(&saved);

    let (restored, error) = decode_checkpoint(&bytes, &[vec![2, 2], vec![2]]);
    assert!(error.is_none());
    assert_eq!(restored.len(), 2);
    assert_eq!(values(&restored[0]), vec![1.0, 2.0, 3.0, 4.0]);
    assert_eq!(values(&restored[1]), vec![5.0, 6.0]);
}

#[test]
fn load_reports_shape_mismatch() {
    let bytes = encode_checkpoint(&[param(vec![2], &[1.0, 2.0])]);
    let (restored, error) = decode_checkpoint(&bytes, &[vec![3]]);
    assert!(restored.is_empty());
    match error {
        Some(CheckpointError::ShapeMismatch { index, found }) => {
            assert_eq!(index, 0);
            assert_eq!(found, vec![2]);
        }
        other => panic!("expected a shape mismatch, got {:?}", other),
    }
}

#[test]
fn checkpoint_bytes_layout() {
    let bytes = encode_checkpoint(&[ParamData { shape: vec![2], bits: vec![1, 0x0102_0304] }]);
    assert_eq!(
        bytes,
        vec![
            b'I', b'N', b'F', b'C', 1, 0, 0, 0, 1, 0, 0, 0, 1, 0, 0, 0, 2, 0, 0, 0, 1, 0, 0, 0, 4, 3, 2, 1
        ]
    );
}

#[test]
fn empty_checkpoint_round_trips() {
    let bytes = encode_checkpoint(&[]);
    assert_eq!(bytes, vec![b'I', b'N', b'F', b'C', 1, 0, 0, 0, 0, 0, 0, 0]);
    let (restored, error) = decode_checkpoint(&bytes, &[]);
    assert!(restored.is_empty());
    assert!(error.is_none());
}

#[test]
fn scalar_and_empty_parameters_round_trip() {
    let saved = vec![param(vec![], &[7.5]), param(vec![0, 3], &[]), param(vec![1, 1, 2], &[-1.0, 0.25])];
    let bytes = encode_checkpoint(&saved);
    let (restored, error) = decode_checkpoint(&bytes, &[vec![], vec![0, 3], vec![1, 1, 2]]);
    assert!(error.is_none());
    assert_eq!(values(&restored[0]), vec![7.5]);
    assert!(restored[1].is_empty());
    assert_eq!(values(&restored[2]), vec![-1.0, 0.25]);
}

#[test]
fn read_u32_is_little_endian() {
    assert_eq!(read_u32(&[9, 4, 3, 2, 1], 1), 0x0102_0304);
    assert_eq!(read_u32(&[255, 255, 255, 255], 0), u32::MAX);
}

#[test]
fn short_file_is_truncated() {
    let (restored, error) = decode_checkpoint(b"IN", &[]);
    assert!(restored.is_empty());
    assert!(matches!(error, Some(CheckpointError::Truncated)));
    let (_, error) = decode_checkpoint(b"INFC\x01\x00", &[]);
    assert!(matches!(error, Some(CheckpointError::Truncated)));
}

#[test]
fn wrong_magic_is_refused() {
    let (restored, error) = decode_checkpoint(b"ABCD\x01\x00\x00\x00\x00\x00\x00\x00", &[]);
    assert!(restored.is_empty());
    assert!(matches!(error, Some(CheckpointError::BadMagic)));
}

#[test]
fn other_version_is_refused() {
    let (_, error) = decode_checkpoint(b"INFC\x02\x00\x00\x00\x00\x00\x00\x00", &[]);
    assert!(matches!(error, Some(CheckpointError::UnsupportedVersion(2))));
}

#[test]
fn parameter_count_must_match() {
    let bytes = encode_checkpoint(&[param(vec![1], &[1.0]), param(vec![1], &[2.0])]);
    let (restored, error) = decode_checkpoint(&bytes, &[vec![1]]);
    assert!(restored.is_empty());
    assert!(matches!(error, Some(CheckpointError::CountMismatch(2))));
}

#[test]
fn values_before_a_cut_are_kept() {
    let bytes = encode_checkpoint(&[param(vec![2], &[1.0, 2.0]), param(vec![3], &[3.0, 4.0, 5.0])]);
    let cut = &bytes[..bytes.len() - 2];
    let (restored, error) = decode_checkpoint(cut, &[vec![2], vec![3]]);
    assert_eq!(restored.len(), 1);
    assert_eq!(values(&restored[0]), vec![1.0, 2.0]);
    assert!(matches!(error, Some(CheckpointError::Truncated)));
}

#[test]
fn mismatch_in_a_later_parameter_names_it() {
    let bytes = encode_checkpoint(&[param(vec![1], &[1.0]), param(vec![2, 1], &[2.0, 3.0])]);
    let (restored, error) = decode_checkpoint(&bytes, &[vec![1], vec![1, 2]]);
    assert_eq!(restored.len(), 1);
    match error {
        Some(CheckpointError::ShapeMismatch { index, found }) => {
            assert_eq!(index, 1);
            assert_eq!(found, vec![2, 1]);
        }
        other => panic!("expected a shape mismatch, got {:?}", other),
    }
}
