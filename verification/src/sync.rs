//! Message framing for peer synchronization: a length-prefixed frame
//! around an opaque message payload.
//!
//! The frame holds the payload bytes; turning messages into bytes and
//! back, and moving frames over the network, happen outside the
//! engine. Framing and parsing round-trip exactly.

use vstd::prelude::*;
use vstd::bytes::{
    spec_u32_to_le_bytes, spec_u32_from_le_bytes, lemma_auto_spec_u32_to_from_le_bytes,
    u32_to_le_bytes, u32_from_le_bytes,
};
use vstd::slice::{slice_subrange, slice_to_vec};
use crate::storage::copy_bytes;

verus! {

/// Errors from peer synchronization.
#[derive(Debug, Clone, Copy, PartialEq, Eq)]
pub enum SyncError {
    NetworkError,
    SerializationError,
    SynchronizationError,
    BlockNotFound,
    ConnectionTimeout,
    AuthenticationFailed,
    InvalidMessage,
}

/// A length-prefixed frame around one message payload.
#[derive(Debug, Clone, PartialEq, Eq)]
pub struct MessageFrame {
    /// The payload's length.
    pub length: u32,
    /// The message payload, opaque to the framing.
    pub payload: Vec<u8>,
}

/// The wire form of a frame: four little-endian length bytes, then the
/// payload.
pub open spec fn frame_bytes(length: u32, payload: Seq<u8>) -> Seq<u8> {
    spec_u32_to_le_bytes(length) + payload
}

impl MessageFrame {
    /// The length field counts the payload bytes.
    pub open spec fn wf(self) -> bool {
        self.length as int == self.payload@.len()
    }

    /// Frame a payload; a payload too long for the length field is
    /// refused.
    pub fn new(payload: Vec<u8>) -> (r: Result<Self, SyncError>)
        ensures
            r matches Ok(f) ==> f.wf() && f.payload@ == payload@ && f.length as int
                == payload@.len(),
            r is Err <==> payload@.len() > u32::MAX,
            r is Err ==> r == Err::<Self, SyncError>(SyncError::SerializationError),
    {
        if payload.len() > (u32::MAX as usize) {
            return Err(SyncError::SerializationError);
        }
        let length = payload.len() as u32;
        Ok(MessageFrame { length, payload })
    }

    /// Serialize the frame to its wire form.
    pub fn to_bytes(&self) -> (r: Result<Vec<u8>, SyncError>)
        requires
            self.wf(),
        ensures
            r matches Ok(v) && v@ == frame_bytes(self.length, self.payload@),
    {
        let mut out = u32_to_le_bytes(self.length);
        let mut body = copy_bytes(&self.payload);
        out.append(&mut body);
        assert(out@ =~= frame_bytes(self.length, self.payload@));
        Ok(out)
    }

    /// Parse a frame from its wire form: four little-endian length
    /// bytes, then at least that many payload bytes; anything shorter
    /// is an invalid message. Trailing bytes beyond the frame are
    /// ignored, as on a stream.
    pub fn from_bytes(data: &Vec<u8>) -> (r: Result<Self, SyncError>)
        ensures
            r matches Ok(f) ==> {
                &&& f.wf()
                &&& data@.len() >= 4
                &&& f.length == spec_u32_from_le_bytes(data@.subrange(0, 4))
                &&& data@.len() >= 4 + f.length as int
                &&& f.payload@ == data@.subrange(4, 4 + f.length as int)
            },
            r is Err <==> data@.len() < 4 || data@.len() < 4 + spec_u32_from_le_bytes(
                data@.subrange(0, 4),
            ) as int,
            r is Err ==> r == Err::<Self, SyncError>(SyncError::InvalidMessage),
    {
        proof {
            lemma_auto_spec_u32_to_from_le_bytes();
        }
        if data.len() < 4 {
            return Err(SyncError::InvalidMessage);
        }
        let head = slice_subrange(data.as_slice(), 0, 4);
        let length = u32_from_le_bytes(head);
        if data.len() - 4 < (length as usize) {
            return Err(SyncError::InvalidMessage);
        }
        let body = slice_subrange(data.as_slice(), 4, 4 + (length as usize));
        let payload = slice_to_vec(body);
        Ok(MessageFrame { length, payload })
    }
}

/// Framing round-trips: parsing the wire form of a well-formed frame
/// yields the same length and payload.
pub proof fn lemma_frame_round_trip(length: u32, payload: Seq<u8>)
    requires
        length as int == payload.len(),
    ensures
        frame_bytes(length, payload).subrange(0, 4) == spec_u32_to_le_bytes(length),
        spec_u32_from_le_bytes(frame_bytes(length, payload).subrange(0, 4)) == length,
        frame_bytes(length, payload).subrange(4, 4 + length as int) == payload,
{
    lemma_auto_spec_u32_to_from_le_bytes();
    let w = frame_bytes(length, payload);
    assert(w.subrange(0, 4) =~= spec_u32_to_le_bytes(length));
    assert(w.subrange(4, 4 + length as int) =~= payload);
}

} // verus!
