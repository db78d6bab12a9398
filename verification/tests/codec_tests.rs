use seqbuffer::codec::{decode, encode};
use seqbuffer::buffer::decode_batch;
use seqbuffer::{BufferError, Column, Frame, Sequence};

fn col(name: &str, vals: &[f64]) -> Column {
    Column {
        name: name.as_bytes().to_vec(),
        values: vals.iter().map(|v| v.to_bits()).collect(),
    }
}

fn sample_record() -> Sequence {
    Sequence {
        index: -42,
        sequence: Frame {
            columns: vec![col("temp", &[1.5, -2.25, 3.0]), col("load", &[0.0, 7.5, -0.125])],
        },
        anomaly: 3,
        saliency: Frame {
            columns: vec![col("w_temp", &[0.9, 0.1, 0.5]), col("w_load", &[0.2, 0.3, 0.4])],
        },
        failure: -1,
        unseen: true,
    }
}

#[test]
fn round_trip_full_record() {
    let s = sample_record();
    let blob = encode(&s).unwrap();
    let back = decode(&blob).unwrap();
    assert_eq!(back, s);
    assert_eq!(back.sequence.columns[0].values[1], (-2.25f64).to_bits());
}

#[test]
fn round_trip_empty_frames() {
    let s = Sequence {
        index: 0,
        sequence: Frame { columns: vec![] },
        anomaly: 0,
        saliency: Frame { columns: vec![] },
        failure: 0,
        unseen: false,
    };
    let blob = encode(&s).unwrap();
    assert_eq!(decode(&blob).unwrap(), s);
}

#[test]
fn encoded_layout_is_stable() {
    let s = Sequence {
        index: 1,
        sequence: Frame { columns: vec![] },
        anomaly: 2,
        saliency: Frame { columns: vec![] },
        failure: 3,
        unseen: true,
    };
    let blob = encode(&s).unwrap();
    // version, three 4-byte annotations, flag byte, two 8-byte column counts
    assert_eq!(blob.len(), 30);
    assert_eq!(blob[0], 1);
    assert_eq!(&blob[1..5], &[1, 0, 0, 0]);
    assert_eq!(&blob[5..9], &[2, 0, 0, 0]);
    assert_eq!(&blob[9..13], &[3, 0, 0, 0]);
    assert_eq!(blob[13], 1);
}

#[test]
fn encode_rejects_ragged_frame() {
    let mut s = sample_record();
    s.sequence.columns[1].values.pop();
    assert_eq!(encode(&s), Err(BufferError::EncodingError));
}

#[test]
fn encode_rejects_shape_mismatch() {
    let mut s = sample_record();
    s.saliency.columns.pop();
    assert_eq!(encode(&s), Err(BufferError::EncodingError));
}

#[test]
fn decode_rejects_empty() {
    assert_eq!(decode(&vec![]), Err(BufferError::DecodingError));
}

#[test]
fn decode_rejects_wrong_version() {
    let mut blob = encode(&sample_record()).unwrap();
    blob[0] = 2;
    assert_eq!(decode(&blob), Err(BufferError::DecodingError));
}

#[test]
fn decode_rejects_truncated() {
    let mut blob = encode(&sample_record()).unwrap();
    blob.pop();
    assert_eq!(decode(&blob), Err(BufferError::DecodingError));
}

#[test]
fn decode_rejects_trailing_bytes() {
    let mut blob = encode(&sample_record()).unwrap();
    blob.push(0);
    assert_eq!(decode(&blob), Err(BufferError::DecodingError));
}

#[test]
fn decode_batch_drops_corrupt_blob() {
    let mut records = Vec::new();
    for i in 0..5 {
        let mut s = sample_record();
        s.index = i;
        records.push(s);
    }
    let mut blobs: Vec<Vec<u8>> = records.iter().map(|s| encode(s).unwrap()).collect();
    // flip a bit in the version byte of the middle blob
    blobs[2][0] ^= 0x80;
    let out = decode_batch(&blobs);
    assert_eq!(out.len(), 4);
    assert_eq!(out[0], records[0]);
    assert_eq!(out[1], records[1]);
    assert_eq!(out[2], records[3]);
    assert_eq!(out[3], records[4]);
}

#[test]
fn hand_built_blob_decodes() {
    // version; index 5; anomaly 0; failure 0; flag 0; two empty frames
    let mut blob = vec![1u8];
    blob.extend_from_slice(&[5, 0, 0, 0]);
    blob.extend_from_slice(&[0, 0, 0, 0]);
    blob.extend_from_slice(&[0, 0, 0, 0]);
    blob.push(0);
    blob.extend_from_slice(&[0u8; 8]);
    blob.extend_from_slice(&[0u8; 8]);
    let s = decode(&blob).unwrap();
    assert_eq!(s.index, 5);
    assert_eq!(s.anomaly, 0);
    assert_eq!(s.failure, 0);
    assert!(!s.unseen);
    assert!(s.sequence.columns.is_empty());
    assert!(s.saliency.columns.is_empty());
    assert_eq!(encode(&s).unwrap(), blob);
}

#[test]
fn decode_batch_of_nothing_is_empty() {
    let out = decode_batch(&vec![]);
    assert!(out.is_empty());
}
