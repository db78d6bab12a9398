use seqbuffer::buffer::make_key;
use seqbuffer::{BufferError, Column, Frame, SeqBuffer, Sequence};

fn record(index: i32) -> Sequence {
    let vals: Vec<u64> = vec![(index as f64).to_bits(), (0.5 + index as f64).to_bits()];
    let weights: Vec<u64> = vec![0.25f64.to_bits(), 0.75f64.to_bits()];
    Sequence {
        index,
        sequence: Frame {
            columns: vec![Column { name: b"reading".to_vec(), values: vals }],
        },
        anomaly: index % 2,
        saliency: Frame {
            columns: vec![Column { name: b"weight".to_vec(), values: weights }],
        },
        failure: 0,
        unseen: false,
    }
}

#[test]
fn push_then_length_matches_count() {
    let mut buf = SeqBuffer::new();
    let key = b"train".to_vec();
    for i in 0..7 {
        buf.push(&key, &record(i)).unwrap();
    }
    assert_eq!(buf.length(&key), 7);
}

#[test]
fn length_of_absent_key_is_zero() {
    let buf = SeqBuffer::new();
    assert_eq!(buf.length(&b"nonexistent".to_vec()), 0);
}

#[test]
fn read_range_preserves_push_order() {
    let mut buf = SeqBuffer::new();
    let key = b"ordered".to_vec();
    let records: Vec<Sequence> = (0..10).map(record).collect();
    for r in &records {
        buf.push(&key, r).unwrap();
    }
    let out = buf.read_range(&key, 0, 10);
    assert_eq!(out.len(), 10);
    for i in 0..10 {
        assert_eq!(out[i], records[i]);
    }
}

#[test]
fn read_range_clamps_partial_window() {
    let mut buf = SeqBuffer::new();
    let key = b"clamp".to_vec();
    for i in 0..10 {
        buf.push(&key, &record(i)).unwrap();
    }
    let out = buf.read_range(&key, 5, 100);
    assert_eq!(out.len(), 5);
    for (j, s) in out.iter().enumerate() {
        assert_eq!(s.index, 5 + j as i32);
    }
}

#[test]
fn read_range_past_end_is_empty() {
    let mut buf = SeqBuffer::new();
    let key = b"short".to_vec();
    for i in 0..3 {
        buf.push(&key, &record(i)).unwrap();
    }
    assert!(buf.read_range(&key, 12, 3).is_empty());
    assert!(buf.read_range(&key, 0, 0).is_empty());
}

#[test]
fn push_ill_formed_record_reports_encoding_error() {
    let mut buf = SeqBuffer::new();
    let key = b"bad".to_vec();
    let mut s = record(0);
    s.saliency.columns.clear();
    assert_eq!(buf.push(&key, &s), Err(BufferError::EncodingError));
    assert_eq!(buf.length(&key), 0);
}

#[test]
fn interleaved_pushes_accumulate() {
    // two producers, three records each, alternating turns on one key
    let mut buf = SeqBuffer::new();
    let key = b"shared".to_vec();
    for i in 0..3 {
        buf.push(&key, &record(10 + i)).unwrap();
        buf.push(&key, &record(20 + i)).unwrap();
    }
    assert_eq!(buf.length(&key), 6);
    let out = buf.read_range(&key, 0, 6);
    let indices: Vec<i32> = out.iter().map(|s| s.index).collect();
    assert_eq!(indices, vec![10, 20, 11, 21, 12, 22]);
}

#[test]
fn distinct_suffixes_are_independent() {
    let mut buf = SeqBuffer::new();
    buf.push(&b"left".to_vec(), &record(1)).unwrap();
    buf.push(&b"left".to_vec(), &record(2)).unwrap();
    buf.push(&b"right".to_vec(), &record(3)).unwrap();
    assert_eq!(buf.length(&b"left".to_vec()), 2);
    assert_eq!(buf.length(&b"right".to_vec()), 1);
    let out = buf.read_range(&b"right".to_vec(), 0, 10);
    assert_eq!(out.len(), 1);
    assert_eq!(out[0].index, 3);
}

#[test]
fn make_key_prepends_namespace() {
    assert_eq!(make_key(&b"foo".to_vec()), b"sequences_foo".to_vec());
    assert_eq!(make_key(&b"".to_vec()), b"sequences_".to_vec());
}

#[test]
fn error_descriptions_name_the_failure() {
    assert_eq!(BufferError::ConnectionError.describe(), "store unreachable or timed out");
    assert_eq!(BufferError::LockError.describe(), "connection guard acquisition failed");
    assert_eq!(BufferError::EncodingError.describe(), "record could not be encoded");
    assert_eq!(BufferError::DecodingError.describe(), "stored blob could not be decoded");
}
