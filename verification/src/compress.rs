//! Block compression of the encoded message, and the compressed encoding
//! of a write request.

use vstd::prelude::*;

use crate::canon::within_canon;
use crate::encode::encoded_request;
use crate::types::WriteRequest;

verus! {

/// What raw snappy block compression makes of a byte string. The codec
/// is deterministic, so the result is a function of the input alone.
pub uninterp spec fn snappy_of(bytes: Seq<u8>) -> Seq<u8>;

/// The encoder accepts inputs up to this many bytes; see
/// [`snappy_input_fits`].
pub open spec fn snappy_max() -> nat {
    0xffff_ffff
}

/// Whether raw snappy compression accepts an input of this length: the
/// input and the worst-case compressed size must both stay within the
/// format's 32-bit bound.
pub open spec fn snappy_input_fits(len: nat) -> bool {
    len <= snappy_max() && 32 + len + len / 6 <= snappy_max()
}

/// Failure of the encoding step. Canonical input is always encodable, so
/// this only reports the compression codec refusing an over-long input.
#[derive(Debug)]
pub struct EncodeError {
    pub message: String,
}

impl EncodeError {
    /// A human-readable description of the failure.
    pub fn message(&self) -> (r: String)
        ensures
            r@ == self.message@,
    {
        self.message.clone()
    }
}

/// Relies on snap::raw::Encoder::compress_vec: raw (unframed) snappy
/// block compression, a deterministic function of the input bytes. It
/// fails exactly when the input length, or the worst-case compressed
/// length `32 + len + len / 6`, exceeds the format's bound of 2^32 - 1.
#[verifier::external_body]
fn snappy_compress(input: &Vec<u8>) -> (r: Result<Vec<u8>, String>)
    ensures
        r matches Ok(v) ==> v@ == snappy_of(input@),
        (r is Ok) == snappy_input_fits(input@.len()),
{
    snap::raw::Encoder::new().compress_vec(input.as_slice()).map_err(|e| e.to_string())
}

impl WriteRequest {
    /// Encode this write request as a snappy-compressed protobuf message,
    /// after bringing every series into canonical internal order.
    pub fn encode_compressed(self) -> (r: Result<Vec<u8>, EncodeError>)
        ensures
            r matches Ok(v) ==> v@ == snappy_of(encoded_request(within_canon(self@))),
            (r is Ok) == snappy_input_fits(encoded_request(within_canon(self@)).len()),
    {
        let raw = self.encode_proto3();
        match snappy_compress(&raw) {
            Ok(v) => Ok(v),
            Err(message) => Err(EncodeError { message }),
        }
    }
}

} // verus!
