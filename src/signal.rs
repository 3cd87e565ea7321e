//! The wire record that the sensor writes for every buffer submission.
use vstd::bytes::{spec_u64_from_le_bytes, spec_u64_to_le_bytes, u64_from_le_bytes, u64_to_le_bytes};
use vstd::prelude::*;
use vstd::slice::slice_subrange;

verus! {

/// Size in bytes of one record on the wire.
pub const RECORD_SIZE: usize = 8;

/// One event of the sensor: the kernel's monotonic clock, in nanoseconds, at
/// the moment the instrumented function was entered.
///
/// The sensor runs on the little-endian BPF target, so the record is the
/// timestamp's eight little-endian bytes.
#[derive(Clone, Copy, Debug, PartialEq, Eq, Structural)]
pub struct FrameSignal {
    pub ktime_ns: u64,
}

/// Why a byte buffer does not hold a record.
#[derive(Clone, Copy, Debug, PartialEq, Eq, Structural)]
pub enum RecordError {
    /// The buffer is shorter than one record.
    TruncatedRecord,
}

/// The record that a byte sequence holds, if it is long enough: the first
/// `RECORD_SIZE` bytes read as a little-endian timestamp.
pub open spec fn decode_spec(bytes: Seq<u8>) -> Result<FrameSignal, RecordError> {
    if bytes.len() < RECORD_SIZE {
        Err(RecordError::TruncatedRecord)
    } else {
        Ok(FrameSignal { ktime_ns: spec_u64_from_le_bytes(bytes.subrange(0, RECORD_SIZE as int)) })
    }
}

/// The bytes that the sensor writes for a record.
pub open spec fn encode_spec(signal: FrameSignal) -> Seq<u8> {
    spec_u64_to_le_bytes(signal.ktime_ns)
}

impl FrameSignal {
    pub fn new(ktime_ns: u64) -> (r: Self)
        ensures
            r.ktime_ns == ktime_ns,
    {
        Self { ktime_ns }
    }

    /// Reads a record from the front of `bytes`; bytes past the record are
    /// ignored. A buffer shorter than a record is never read in part.
    pub fn decode(bytes: &[u8]) -> (r: Result<FrameSignal, RecordError>)
        ensures
            r == decode_spec(bytes@),
    {
        if bytes.len() < RECORD_SIZE {
            return Err(RecordError::TruncatedRecord);
        }
        let head = slice_subrange(bytes, 0, RECORD_SIZE);
        Ok(FrameSignal { ktime_ns: u64_from_le_bytes(head) })
    }

    /// The record's bytes, as the sensor lays them out.
    pub fn to_bytes(&self) -> (r: Vec<u8>)
        ensures
            r@ == encode_spec(*self),
            r@.len() == RECORD_SIZE,
    {
        u64_to_le_bytes(self.ktime_ns)
    }
}

/// Decoding what was encoded gives the record back, whatever follows it in
/// the buffer; every buffer shorter than a record, the empty one included, is
/// refused as truncated.
pub proof fn lemma_decode_encode(signal: FrameSignal, rest: Seq<u8>)
    ensures
        decode_spec(encode_spec(signal) + rest) == Ok::<FrameSignal, RecordError>(signal),
        forall|bytes: Seq<u8>|
            bytes.len() < RECORD_SIZE ==> #[trigger] decode_spec(bytes) == Err::<
                FrameSignal,
                RecordError,
            >(RecordError::TruncatedRecord),
{
    vstd::bytes::lemma_auto_spec_u64_to_from_le_bytes();
    let bytes = encode_spec(signal) + rest;
    assert(bytes.subrange(0, RECORD_SIZE as int) =~= encode_spec(signal));
}

} // verus!
