//! Compression of response bodies.
use vstd::prelude::*;

use crate::error::Error;

verus! {

/// Whether the server is asked to compress its responses.
#[derive(Debug, Clone, Copy, PartialEq, Eq, Structural)]
pub enum Compression {
    Off,
    Lz4,
}

impl Default for Compression {
    fn default() -> (r: Compression)
        ensures
            r == Compression::Off,
    {
        Compression::Off
    }
}

/// What the LZ4 frame decoder reads from `b` until it stops, or `None` when
/// it reports an error on the way.
pub uninterp spec fn lz4_frames_decoded(b: Seq<u8>) -> Option<Seq<u8>>;

/// Relies on `lz4_flex::frame::FrameDecoder` read with `read_to_end`: what
/// it yields, or whether it fails, depends on the bytes alone. It stops at
/// the end mark of a frame, so bytes after it are not read, and input that
/// ends where a new block header would start is not reported as an error.
#[verifier::external_body]
fn decode_lz4_frames(b: &[u8]) -> (r: Option<Vec<u8>>)
    ensures
        match lz4_frames_decoded(b@) {
            Some(d) => r matches Some(v) && v@ == d,
            None => r is None,
        },
{
    let mut out: Vec<u8> = Vec::new();
    match std::io::Read::read_to_end(&mut lz4_flex::frame::FrameDecoder::new(b), &mut out) {
        Ok(_) => Some(out),
        Err(_) => None,
    }
}

/// Decompresses a response body compressed as LZ4 frames: the result is
/// what the frame decoder reads from it, and a body on which the decoder
/// reports an error is a bad response.
pub fn decompress_body(body: &Vec<u8>) -> (r: Result<Vec<u8>, Error>)
    ensures
        match lz4_frames_decoded(body@) {
            Some(d) => r matches Ok(v) && v@ == d,
            None => r matches Err(Error::BadResponse(_)),
        },
{
    match decode_lz4_frames(body.as_slice()) {
        Some(v) => Ok(v),
        None => Err(Error::BadResponse("malformed LZ4 frame".to_owned())),
    }
}

} // verus!
