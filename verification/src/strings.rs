//! Text on the wire: the UTF-8 bytes are appended first, in their original
//! order, and the byte count last, nearest the tail. Four size classes carry
//! the count as a fixed-width little-endian prefix; the plain `String`
//! carries it as a variable-length tag in the reversed orientation.
//!
//! A string longer than its class's cap is truncated at the cap's byte count,
//! which may cut a multi-byte character in two. Decoding recovers text with
//! lossy recovery: an invalid byte sequence is replaced, never rejected.
//! This is a deliberate choice of the wire format, not an accident.
use vstd::prelude::*;

use crate::codec::{CodecError, Convert};
use crate::num::{le_bytes, le_val, lemma_le_round_trip, lemma_pow256_values, pop_le, push_le};
use crate::varint::{varint_dec_rev, varint_enc, VarInt};
use vstd::slice::slice_to_vec;
use vstd::utf8::{decode_utf8, encode_utf8, valid_utf8};

verus! {

/// What lossy recovery yields on bytes that are not valid UTF-8. The result
/// depends on the bytes alone.
pub uninterp spec fn utf8_lossy(bytes: Seq<u8>) -> Seq<char>;

/// The characters that a byte sequence decodes to: valid UTF-8 converts
/// without change, and anything else goes through lossy recovery.
pub open spec fn lossy_decode(bytes: Seq<u8>) -> Seq<char> {
    if valid_utf8(bytes) {
        decode_utf8(bytes)
    } else {
        utf8_lossy(bytes)
    }
}

/// Relies on `String::from_utf8_lossy`: bytes that are valid UTF-8 convert
/// without replacement, and the result is a function of the bytes alone.
#[verifier::external_body]
fn bytes_to_string_lossy(bytes: Vec<u8>) -> (r: String)
    ensures
        r@ == lossy_decode(bytes@),
        !valid_utf8(bytes@) ==> r@ == utf8_lossy(bytes@),
{
    String::from_utf8_lossy(&bytes).into_owned()
}

/// The UTF-8 bytes of `s`, in a fresh buffer.
fn text_bytes(s: &String) -> (r: Vec<u8>)
    ensures
        r@ == encode_utf8(s@),
{
    slice_to_vec(s.as_str().as_bytes())
}

/// Removes the last `size` bytes of `rx` and recovers text from them, or
/// reports that too few bytes stand in the buffer.
fn pop_text(rx: &mut Vec<u8>, size: usize) -> (r: Result<String, CodecError>)
    ensures
        if size <= old(rx)@.len() {
            &&& r is Ok
            &&& r->Ok_0@ == lossy_decode(old(rx)@.skip(old(rx)@.len() - size as int))
            &&& final (rx)@ == old(rx)@.take(old(rx)@.len() - size as int)
        } else {
            r is Err && r->Err_0 == CodecError::UnexpectedEof
        },
{
    let len = rx.len();
    if len < size {
        return Err(CodecError::UnexpectedEof);
    }
    let payload = rx.split_off(len - size);
    Ok(bytes_to_string_lossy(payload))
}

/// Text with a one-byte count: at most 255 bytes are encoded.
#[derive(Clone, Debug, PartialEq, Eq)]
pub struct TinyString(pub String);

impl View for TinyString {
    type V = Seq<char>;

    open spec fn view(&self) -> Seq<char> {
        self.0@
    }
}

impl DeepView for TinyString {
    type V = Seq<char>;

    open spec fn deep_view(&self) -> Seq<char> {
        self.0@
    }
}

impl Convert for TinyString {
    open spec fn enc(&self) -> Seq<u8> {
        let bytes = encode_utf8(self.0@);
        let count = if bytes.len() < 0xFF {
            bytes.len() as int
        } else {
            0xFF
        };
        bytes.take(count) + le_bytes(count, 1)
    }

    open spec fn dec(s: Seq<u8>) -> Result<(Seq<char>, nat), CodecError> {
        if s.len() < 1 {
            Err(CodecError::UnexpectedEof)
        } else {
            let size = le_val(s.skip(s.len() - 1));
            if s.len() - 1 < size {
                Err(CodecError::UnexpectedEof)
            } else {
                Ok((lossy_decode(s.subrange(s.len() - 1 - size, s.len() - 1)), (1 + size) as nat))
            }
        }
    }

    open spec fn encodable(&self) -> bool {
        encode_utf8(self.0@).len() <= 0xFF
    }

    proof fn lemma_enc_dec(&self, prefix: Seq<u8>) {
        let bytes = encode_utf8(self.0@);
        let s = prefix + self.enc();
        assert(bytes.take(bytes.len() as int) =~= bytes);
        lemma_pow256_values();
        lemma_le_round_trip(prefix + bytes, bytes.len() as int, 1);
        assert(s =~= (prefix + bytes) + le_bytes(bytes.len() as int, 1));
        assert(s.skip(s.len() - 1) =~= (prefix + bytes + le_bytes(bytes.len() as int, 1)).skip(
            prefix.len() + bytes.len() as int,
        ));
        assert(s.subrange(s.len() - 1 - bytes.len(), s.len() - 1) =~= bytes);
        vstd::utf8::encode_utf8_valid_utf8(self.0@);
        vstd::utf8::encode_utf8_decode_utf8(self.0@);
    }

    fn to_bytes(&self, tx: &mut Vec<u8>) {
        let mut bv = text_bytes(&self.0);
        let blen = bv.len();
        let count = if blen < 0xFF {
            blen
        } else {
            0xFF
        };
        bv.truncate(count);
        tx.append(&mut bv);
        push_le(tx, count as u128, 1);
        proof {
            assert(old(tx)@ + encode_utf8(self.0@).take(count as int) + le_bytes(count as int, 1)
                =~= old(tx)@ + self.enc());
        }
    }

    fn to_bytes_return(&self) -> (r: Vec<u8>) {
        let mut tx: Vec<u8> = Vec::new();
        self.to_bytes(&mut tx);
        proof {
            assert(tx@ =~= self.enc());
        }
        tx
    }

    fn from_bytes(rx: &mut Vec<u8>) -> (r: Result<Self, CodecError>) {
        let ghost orig = old(rx)@;
        let size = match pop_le(rx, 1) {
            Ok(v) => v,
            Err(e) => {
                return Err(e);
            },
        };
        proof {
            crate::num::lemma_le_val_bound(orig.skip(orig.len() - 1));
            lemma_pow256_values();
        }
        let count = size as usize;
        match pop_text(rx, count) {
            Ok(text) => {
                proof {
                    assert(orig.take(orig.len() - 1).skip(orig.len() - 1 - count as int)
                        =~= orig.subrange(orig.len() - 1 - count as int, orig.len() - 1));
                    assert(orig.take(orig.len() - 1).take(orig.len() - 1 - count as int)
                        =~= orig.take(orig.len() - (1 + count as int)));
                }
                Ok(TinyString(text))
            },
            Err(e) => Err(e),
        }
    }
}

/// Text with a two-byte count: at most 65535 bytes are encoded.
#[derive(Clone, Debug, PartialEq, Eq)]
pub struct ShortString(pub String);

impl View for ShortString {
    type V = Seq<char>;

    open spec fn view(&self) -> Seq<char> {
        self.0@
    }
}

impl DeepView for ShortString {
    type V = Seq<char>;

    open spec fn deep_view(&self) -> Seq<char> {
        self.0@
    }
}

impl Convert for ShortString {
    open spec fn enc(&self) -> Seq<u8> {
        let bytes = encode_utf8(self.0@);
        let count = if bytes.len() < 0xFFFF {
            bytes.len() as int
        } else {
            0xFFFF
        };
        bytes.take(count) + le_bytes(count, 2)
    }

    open spec fn dec(s: Seq<u8>) -> Result<(Seq<char>, nat), CodecError> {
        if s.len() < 2 {
            Err(CodecError::UnexpectedEof)
        } else {
            let size = le_val(s.skip(s.len() - 2));
            if s.len() - 2 < size {
                Err(CodecError::UnexpectedEof)
            } else {
                Ok((lossy_decode(s.subrange(s.len() - 2 - size, s.len() - 2)), (2 + size) as nat))
            }
        }
    }

    open spec fn encodable(&self) -> bool {
        encode_utf8(self.0@).len() <= 0xFFFF
    }

    proof fn lemma_enc_dec(&self, prefix: Seq<u8>) {
        let bytes = encode_utf8(self.0@);
        let s = prefix + self.enc();
        assert(bytes.take(bytes.len() as int) =~= bytes);
        lemma_pow256_values();
        lemma_le_round_trip(prefix + bytes, bytes.len() as int, 2);
        assert(s =~= (prefix + bytes) + le_bytes(bytes.len() as int, 2));
        assert(s.skip(s.len() - 2) =~= (prefix + bytes + le_bytes(bytes.len() as int, 2)).skip(
            prefix.len() + bytes.len() as int,
        ));
        assert(s.subrange(s.len() - 2 - bytes.len(), s.len() - 2) =~= bytes);
        vstd::utf8::encode_utf8_valid_utf8(self.0@);
        vstd::utf8::encode_utf8_decode_utf8(self.0@);
    }

    fn to_bytes(&self, tx: &mut Vec<u8>) {
        let mut bv = text_bytes(&self.0);
        let blen = bv.len();
        let count = if blen < 0xFFFF {
            blen
        } else {
            0xFFFF
        };
        bv.truncate(count);
        tx.append(&mut bv);
        push_le(tx, count as u128, 2);
        proof {
            assert(old(tx)@ + encode_utf8(self.0@).take(count as int) + le_bytes(count as int, 2)
                =~= old(tx)@ + self.enc());
        }
    }

    fn to_bytes_return(&self) -> (r: Vec<u8>) {
        let mut tx: Vec<u8> = Vec::new();
        self.to_bytes(&mut tx);
        proof {
            assert(tx@ =~= self.enc());
        }
        tx
    }

    fn from_bytes(rx: &mut Vec<u8>) -> (r: Result<Self, CodecError>) {
        let ghost orig = old(rx)@;
        let size = match pop_le(rx, 2) {
            Ok(v) => v,
            Err(e) => {
                return Err(e);
            },
        };
        proof {
            crate::num::lemma_le_val_bound(orig.skip(orig.len() - 2));
            lemma_pow256_values();
        }
        let count = size as usize;
        match pop_text(rx, count) {
            Ok(text) => {
                proof {
                    assert(orig.take(orig.len() - 2).skip(orig.len() - 2 - count as int)
                        =~= orig.subrange(orig.len() - 2 - count as int, orig.len() - 2));
                    assert(orig.take(orig.len() - 2).take(orig.len() - 2 - count as int)
                        =~= orig.take(orig.len() - (2 + count as int)));
                }
                Ok(ShortString(text))
            },
            Err(e) => Err(e),
        }
    }
}

/// Text with a four-byte count: at most `u32::MAX` bytes are encoded.
#[derive(Clone, Debug, PartialEq, Eq)]
pub struct MediumString(pub String);

impl View for MediumString {
    type V = Seq<char>;

    open spec fn view(&self) -> Seq<char> {
        self.0@
    }
}

impl DeepView for MediumString {
    type V = Seq<char>;

    open spec fn deep_view(&self) -> Seq<char> {
        self.0@
    }
}

impl Convert for MediumString {
    open spec fn enc(&self) -> Seq<u8> {
        let bytes = encode_utf8(self.0@);
        let count = if bytes.len() < 0xFFFF_FFFF {
            bytes.len() as int
        } else {
            0xFFFF_FFFF
        };
        bytes.take(count) + le_bytes(count, 4)
    }

    open spec fn dec(s: Seq<u8>) -> Result<(Seq<char>, nat), CodecError> {
        if s.len() < 4 {
            Err(CodecError::UnexpectedEof)
        } else {
            let size = le_val(s.skip(s.len() - 4));
            if s.len() - 4 < size {
                Err(CodecError::UnexpectedEof)
            } else {
                Ok((lossy_decode(s.subrange(s.len() - 4 - size, s.len() - 4)), (4 + size) as nat))
            }
        }
    }

    open spec fn encodable(&self) -> bool {
        encode_utf8(self.0@).len() <= 0xFFFF_FFFF
    }

    proof fn lemma_enc_dec(&self, prefix: Seq<u8>) {
        let bytes = encode_utf8(self.0@);
        let s = prefix + self.enc();
        assert(bytes.take(bytes.len() as int) =~= bytes);
        lemma_pow256_values();
        lemma_le_round_trip(prefix + bytes, bytes.len() as int, 4);
        assert(s =~= (prefix + bytes) + le_bytes(bytes.len() as int, 4));
        assert(s.skip(s.len() - 4) =~= (prefix + bytes + le_bytes(bytes.len() as int, 4)).skip(
            prefix.len() + bytes.len() as int,
        ));
        assert(s.subrange(s.len() - 4 - bytes.len(), s.len() - 4) =~= bytes);
        vstd::utf8::encode_utf8_valid_utf8(self.0@);
        vstd::utf8::encode_utf8_decode_utf8(self.0@);
    }

    fn to_bytes(&self, tx: &mut Vec<u8>) {
        let mut bv = text_bytes(&self.0);
        let blen = bv.len();
        let cap: usize = 0xFFFF_FFFFu32 as usize;
        let count = if blen < cap {
            blen
        } else {
            cap
        };
        bv.truncate(count);
        tx.append(&mut bv);
        push_le(tx, count as u128, 4);
        proof {
            assert(old(tx)@ + encode_utf8(self.0@).take(count as int) + le_bytes(count as int, 4)
                =~= old(tx)@ + self.enc());
        }
    }

    fn to_bytes_return(&self) -> (r: Vec<u8>) {
        let mut tx: Vec<u8> = Vec::new();
        self.to_bytes(&mut tx);
        proof {
            assert(tx@ =~= self.enc());
        }
        tx
    }

    fn from_bytes(rx: &mut Vec<u8>) -> (r: Result<Self, CodecError>) {
        let ghost orig = old(rx)@;
        let size = match pop_le(rx, 4) {
            Ok(v) => v,
            Err(e) => {
                return Err(e);
            },
        };
        proof {
            crate::num::lemma_le_val_bound(orig.skip(orig.len() - 4));
            lemma_pow256_values();
        }
        let count = size as usize;
        match pop_text(rx, count) {
            Ok(text) => {
                proof {
                    assert(orig.take(orig.len() - 4).skip(orig.len() - 4 - count as int)
                        =~= orig.subrange(orig.len() - 4 - count as int, orig.len() - 4));
                    assert(orig.take(orig.len() - 4).take(orig.len() - 4 - count as int)
                        =~= orig.take(orig.len() - (4 + count as int)));
                }
                Ok(MediumString(text))
            },
            Err(e) => Err(e),
        }
    }
}

/// Text with an eight-byte count. The cap of `u64::MAX` cannot be exceeded
/// by a string in memory, so every byte is always encoded.
#[derive(Clone, Debug, PartialEq, Eq)]
pub struct LongString(pub String);

impl View for LongString {
    type V = Seq<char>;

    open spec fn view(&self) -> Seq<char> {
        self.0@
    }
}

impl DeepView for LongString {
    type V = Seq<char>;

    open spec fn deep_view(&self) -> Seq<char> {
        self.0@
    }
}

impl Convert for LongString {
    open spec fn enc(&self) -> Seq<u8> {
        let bytes = encode_utf8(self.0@);
        bytes + le_bytes(bytes.len() as int, 8)
    }

    open spec fn dec(s: Seq<u8>) -> Result<(Seq<char>, nat), CodecError> {
        if s.len() < 8 {
            Err(CodecError::UnexpectedEof)
        } else {
            let size = le_val(s.skip(s.len() - 8));
            if s.len() - 8 < size || size > usize::MAX {
                Err(CodecError::UnexpectedEof)
            } else {
                Ok((lossy_decode(s.subrange(s.len() - 8 - size, s.len() - 8)), (8 + size) as nat))
            }
        }
    }

    open spec fn encodable(&self) -> bool {
        encode_utf8(self.0@).len() <= usize::MAX
    }

    proof fn lemma_enc_dec(&self, prefix: Seq<u8>) {
        let bytes = encode_utf8(self.0@);
        let s = prefix + self.enc();
        lemma_pow256_values();
        lemma_le_round_trip(prefix + bytes, bytes.len() as int, 8);
        assert(s =~= (prefix + bytes) + le_bytes(bytes.len() as int, 8));
        assert(s.skip(s.len() - 8) =~= (prefix + bytes + le_bytes(bytes.len() as int, 8)).skip(
            prefix.len() + bytes.len() as int,
        ));
        assert(s.subrange(s.len() - 8 - bytes.len(), s.len() - 8) =~= bytes);
        vstd::utf8::encode_utf8_valid_utf8(self.0@);
        vstd::utf8::encode_utf8_decode_utf8(self.0@);
    }

    fn to_bytes(&self, tx: &mut Vec<u8>) {
        let mut bv = text_bytes(&self.0);
        let blen = bv.len();
        tx.append(&mut bv);
        push_le(tx, blen as u128, 8);
        proof {
            assert(old(tx)@ + encode_utf8(self.0@) + le_bytes(blen as int, 8) =~= old(tx)@
                + self.enc());
        }
    }

    fn to_bytes_return(&self) -> (r: Vec<u8>) {
        let mut tx: Vec<u8> = Vec::new();
        self.to_bytes(&mut tx);
        proof {
            assert(tx@ =~= self.enc());
        }
        tx
    }

    fn from_bytes(rx: &mut Vec<u8>) -> (r: Result<Self, CodecError>) {
        let ghost orig = old(rx)@;
        let size = match pop_le(rx, 8) {
            Ok(v) => v,
            Err(e) => {
                return Err(e);
            },
        };
        proof {
            crate::num::lemma_le_val_bound(orig.skip(orig.len() - 8));
            lemma_pow256_values();
        }
        if size > usize::MAX as u128 {
            return Err(CodecError::UnexpectedEof);
        }
        let count = size as usize;
        match pop_text(rx, count) {
            Ok(text) => {
                proof {
                    assert(orig.take(orig.len() - 8).skip(orig.len() - 8 - count as int)
                        =~= orig.subrange(orig.len() - 8 - count as int, orig.len() - 8));
                    assert(orig.take(orig.len() - 8).take(orig.len() - 8 - count as int)
                        =~= orig.take(orig.len() - (8 + count as int)));
                }
                Ok(LongString(text))
            },
            Err(e) => Err(e),
        }
    }
}

impl Convert for String {
    open spec fn enc(&self) -> Seq<u8> {
        let bytes = encode_utf8(self@);
        let count = if bytes.len() < 0xFFFF_FFFF {
            bytes.len() as int
        } else {
            0xFFFF_FFFF
        };
        bytes.take(count) + varint_enc(count as u32).reverse()
    }

    open spec fn dec(s: Seq<u8>) -> Result<(Seq<char>, nat), CodecError> {
        match varint_dec_rev(s) {
            Ok((size, n)) => if s.len() - n < size {
                Err(CodecError::UnexpectedEof)
            } else {
                Ok(
                    (
                        lossy_decode(s.subrange(s.len() - n - size, s.len() - n)),
                        (n + size) as nat,
                    ),
                )
            },
            Err(e) => Err(e),
        }
    }

    open spec fn encodable(&self) -> bool {
        encode_utf8(self@).len() <= 0xFFFF_FFFF
    }

    proof fn lemma_enc_dec(&self, prefix: Seq<u8>) {
        let bytes = encode_utf8(self@);
        let s = prefix + self.enc();
        assert(bytes.take(bytes.len() as int) =~= bytes);
        crate::varint::lemma_varint_dec_rev_enc(bytes.len() as u32, prefix + bytes);
        assert(s =~= (prefix + bytes) + varint_enc(bytes.len() as u32).reverse());
        let n = varint_enc(bytes.len() as u32).reverse().len();
        assert(s.subrange(s.len() - n - bytes.len(), s.len() - n) =~= bytes);
        vstd::utf8::encode_utf8_valid_utf8(self@);
        vstd::utf8::encode_utf8_decode_utf8(self@);
    }

    fn to_bytes(&self, tx: &mut Vec<u8>) {
        let mut bv = text_bytes(self);
        let blen = bv.len();
        let cap: usize = 0xFFFF_FFFFu32 as usize;
        let count = if blen < cap {
            blen
        } else {
            cap
        };
        bv.truncate(count);
        tx.append(&mut bv);
        let tag = VarInt(count as u32);
        tag.to_bytes(tx);
        proof {
            assert(old(tx)@ + encode_utf8(self@).take(count as int) + varint_enc(
                count as u32,
            ).reverse() =~= old(tx)@ + self.enc());
        }
    }

    fn to_bytes_return(&self) -> (r: Vec<u8>) {
        let mut tx: Vec<u8> = Vec::new();
        self.to_bytes(&mut tx);
        proof {
            assert(tx@ =~= self.enc());
        }
        tx
    }

    fn from_bytes(rx: &mut Vec<u8>) -> (r: Result<Self, CodecError>) {
        let ghost orig = old(rx)@;
        let tag = match VarInt::from_bytes(rx) {
            Ok(v) => v,
            Err(e) => {
                return Err(e);
            },
        };
        let ghost n = VarInt::dec(orig)->Ok_0.1;
        let count = tag.0 as usize;
        match pop_text(rx, count) {
            Ok(text) => {
                proof {
                    assert(orig.take(orig.len() - n).skip(orig.take(orig.len() - n).len() - count
                        as int) =~= orig.subrange(
                        orig.len() - n - count as int,
                        orig.len() - n,
                    ));
                    assert(orig.take(orig.len() - n).take(orig.take(orig.len() - n).len() - count
                        as int) =~= orig.take(orig.len() - (n + count as int)));
                }
                Ok(text)
            },
            Err(e) => Err(e),
        }
    }
}

} // verus!
