use frame_analyzer::{FrameSignal, RecordError, RECORD_SIZE};

#[test]
fn new_keeps_timestamp() {
    assert_eq!(FrameSignal::new(42).ktime_ns, 42);
}

#[test]
fn decode_reads_little_endian_timestamp() {
    let bytes = [0x01, 0x02, 0x03, 0x04, 0x05, 0x06, 0x07, 0x08];
    let signal = FrameSignal::decode(&bytes).unwrap();
    assert_eq!(signal.ktime_ns, 0x0807_0605_0403_0201);
}

#[test]
fn decode_ignores_trailing_bytes() {
    let mut bytes = 1033u64.to_le_bytes().to_vec();
    bytes.extend_from_slice(&[0xff; 8]);
    assert_eq!(FrameSignal::decode(&bytes), Ok(FrameSignal::new(1033)));
}

#[test]
fn decode_refuses_every_short_buffer() {
    let bytes = [0xaau8; RECORD_SIZE];
    for len in 0..RECORD_SIZE {
        assert_eq!(
            FrameSignal::decode(&bytes[..len]),
            Err(RecordError::TruncatedRecord),
            "length {len}"
        );
    }
    assert_eq!(FrameSignal::decode(&[]), Err(RecordError::TruncatedRecord));
}

#[test]
fn encode_then_decode_round_trips() {
    for value in [0u64, 1, 1000, 0x0123_4567_89ab_cdef, u64::MAX] {
        let bytes = FrameSignal::new(value).to_bytes();
        assert_eq!(bytes.len(), RECORD_SIZE);
        assert_eq!(bytes, value.to_le_bytes().to_vec());
        assert_eq!(FrameSignal::decode(&bytes), Ok(FrameSignal::new(value)));
    }
}
