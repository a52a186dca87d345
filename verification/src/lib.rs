//! A compact binary serialization core: a variable-length integer codec, a
//! family of tail-consuming encoders and decoders for primitive and container
//! types, and a length-prefixed framing protocol for discrete messages on a
//! byte stream.
//!
//! Encoders append bytes at the end of a growable buffer; decoders consume
//! bytes from the end. Composite values are appended in reverse logical order
//! so that decoding, which pops from the tail, recovers the parts in their
//! original order.
use vstd::prelude::*;

pub mod codec;
pub mod frame;
pub mod hashes;
pub mod iters;
pub mod num;
pub mod other;
pub mod strings;
pub mod varint;

use codec::{CodecError, Convert};
use frame::frame_bytes;
use varint::to_var_int;

verus! {

/// A byte buffer in which messages are assembled before framing.
pub struct Coder(Vec<u8>);

impl Coder {
    /// Creates an empty buffer.
    pub fn new() -> (r: Self)
        ensures
            r@ == Seq::<u8>::empty(),
    {
        Coder(Vec::new())
    }

    /// The buffered bytes.
    pub closed spec fn view(&self) -> Seq<u8> {
        self.0@
    }

    /// Empties the buffer.
    pub fn clear(&mut self)
        ensures
            final (self)@ == Seq::<u8>::empty(),
    {
        self.0.clear();
    }

    /// A shared reference to the buffered bytes.
    pub fn get_ref(&self) -> (r: &Vec<u8>)
        ensures
            r@ == self@,
    {
        &self.0
    }

    /// A mutable reference to the buffered bytes, for decoding in place.
    pub fn get_mut_ref(&mut self) -> (r: &mut Vec<u8>)
        ensures
            r@ == old(self)@,
            final (r)@ == final (self)@,
    {
        &mut self.0
    }

    /// Appends a value's encoding at the tail of the buffer.
    pub fn push<T: Convert>(&mut self, x: &T)
        ensures
            final (self)@ == old(self)@ + x.enc(),
    {
        x.to_bytes(&mut self.0)
    }

    /// Takes the buffered bytes as one frame ready for a stream — the
    /// payload's length as a forward-oriented tag, then the payload — and
    /// clears the buffer. A payload longer than `u32::MAX` bytes cannot be
    /// framed; it is left in place and reported as invalid.
    pub fn send(&mut self) -> (r: Result<Vec<u8>, CodecError>)
        ensures
            if old(self)@.len() <= u32::MAX {
                &&& r is Ok
                &&& r->Ok_0@ == frame_bytes(old(self)@)
                &&& final (self)@ == Seq::<u8>::empty()
            } else {
                &&& r is Err
                &&& r->Err_0 == CodecError::InvalidData
                &&& final (self)@ == old(self)@
            },
    {
        let len = self.0.len();
        if (len as u64) > 0xFFFF_FFFFu64 {
            return Err(CodecError::InvalidData);
        }
        let mut out = to_var_int(len as u32);
        out.append(&mut self.0);
        Ok(out)
    }
}

} // verus!
