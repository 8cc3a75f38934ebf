use vstd::prelude::*;

verus! {

/// Failures surfaced by the codec and the connection-facing layer.
///
/// A `DecodeError` is returned for malformed, short or internally
/// inconsistent input; it is fatal to the connection that sent the bytes.
/// `IoError` stands for a read or write failure reported by the caller's
/// transport; the codec itself never produces it.
#[derive(Clone, Copy, PartialEq, Eq, Structural, Debug)]
pub enum KafkaError {
    BrokerError(BrokerError),
    IoError,
    DecodeError,
    EncodeError,
}

/// Broker-level error conditions, mirroring the wire protocol's error codes.
#[derive(Clone, Copy, PartialEq, Eq, Structural, Debug)]
pub enum BrokerError {
    NoError,
    UnknownError,
    UnsupportedVersion,
    UnknownTopicOrPartition,
}

} // verus!
