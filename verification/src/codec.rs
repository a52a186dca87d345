//! The codec capability: every encodable type appends its bytes at the tail
//! of a buffer and decodes by consuming bytes from the tail.
use vstd::prelude::*;

verus! {

/// Why a decode failed.
#[derive(Clone, Copy, Debug, PartialEq, Eq, Structural)]
pub enum CodecError {
    /// The bytes are malformed: an unterminated variable-length integer, an
    /// unknown discriminant byte, or a payload too large to frame.
    InvalidData,
    /// The buffer holds fewer bytes than the value requires.
    UnexpectedEof,
}

/// The operation set every encodable type supports. A value's mathematical
/// model is its deep view; decoding is specified on models, since distinct
/// buffers may decode to distinct yet equal-looking heap values.
pub trait Convert: Sized + DeepView {
    /// The bytes that encoding this value appends to a buffer.
    spec fn enc(&self) -> Seq<u8>;

    /// What decoding takes from the tail of `s`: the model of the decoded
    /// value and the number of consumed bytes, or the error.
    spec fn dec(s: Seq<u8>) -> Result<(Self::V, nat), CodecError>;

    /// Whether the value is within every applicable length cap, so that
    /// decoding its encoding yields it back unchanged.
    spec fn encodable(&self) -> bool;

    /// Round trip: decoding from a buffer that ends with this value's
    /// encoding yields the value and consumes exactly its encoding.
    proof fn lemma_enc_dec(&self, prefix: Seq<u8>)
        requires
            self.encodable(),
        ensures
            Self::dec(prefix + self.enc()) == Ok::<_, CodecError>(
                (self.deep_view(), self.enc().len()),
            ),
    ;

    /// Appends the encoding at the tail of `tx`.
    fn to_bytes(&self, tx: &mut Vec<u8>)
        ensures
            final (tx)@ == old(tx)@ + self.enc(),
    ;

    /// The encoding, in a fresh buffer.
    fn to_bytes_return(&self) -> (r: Vec<u8>)
        ensures
            r@ == self.enc(),
    ;

    /// Decodes a value from the tail of `rx`, consuming its bytes. On
    /// success exactly the value's bytes are gone; after a failure the buffer
    /// may be left partly consumed.
    fn from_bytes(rx: &mut Vec<u8>) -> (r: Result<Self, CodecError>)
        ensures
            match Self::dec(old(rx)@) {
                Ok((x, n)) => {
                    &&& r is Ok
                    &&& r->Ok_0.deep_view() == x
                    &&& n <= old(rx)@.len()
                    &&& final (rx)@ == old(rx)@.take(old(rx)@.len() - n)
                },
                Err(e) => r is Err && r->Err_0 == e,
            },
    ;
}

} // verus!
