//! Variable-length encoding of an unsigned 32-bit integer: seven value bits
//! per byte, least significant group first, with the high bit set on every
//! byte except the last. A value takes one to five bytes.
//!
//! Two orientations are used. The forward orientation is scanned head to
//! tail, as a stream frame header must be. The reversed orientation is the
//! same bytes written back to front at the tail of a buffer, scanned tail to
//! head, so that the tag participates in the tail-consuming discipline.
use vstd::prelude::*;

use crate::codec::{CodecError, Convert};

verus! {

/// The forward-oriented encoding of `v`.
pub open spec fn varint_enc(v: u32) -> Seq<u8>
    decreases v,
{
    if v < 128 {
        seq![v as u8]
    } else {
        seq![((v % 128) + 128) as u8] + varint_enc(v / 128)
    }
}

/// The value carried by the seven-bit groups of `s`, least significant first.
pub open spec fn varint_val(s: Seq<u8>) -> int
    decreases s.len(),
{
    if s.len() == 0 {
        0
    } else {
        (s[0] % 128) + 128 * varint_val(s.drop_first())
    }
}

/// How many leading bytes of `s` a forward scan consumes: the count up to and
/// including the first byte with a clear high bit, looking at most `fuel`
/// bytes ahead.
pub open spec fn varint_scan(s: Seq<u8>, fuel: nat) -> Option<nat>
    decreases fuel,
{
    if s.len() == 0 || fuel == 0 {
        None
    } else if s[0] < 128 {
        Some(1nat)
    } else {
        match varint_scan(s.drop_first(), (fuel - 1) as nat) {
            Some(n) => Some((n + 1) as nat),
            None => None,
        }
    }
}

/// What a forward scan of the head of `s` yields: the decoded value and the
/// number of bytes consumed, or the error when no terminating byte stands
/// within the five-byte bound. Accumulated groups beyond 32 bits are
/// discarded.
pub open spec fn varint_dec(s: Seq<u8>) -> Result<(u32, nat), CodecError> {
    match varint_scan(s, 5) {
        Some(n) => Ok(((varint_val(s.take(n as int)) % 0x1_0000_0000) as u32, n)),
        None => Err(CodecError::InvalidData),
    }
}

/// What a tail-to-head scan of the end of `s` yields; the consumed bytes are
/// the last ones of `s`.
pub open spec fn varint_dec_rev(s: Seq<u8>) -> Result<(u32, nat), CodecError> {
    varint_dec(s.reverse())
}

/// 128 raised to `n`.
pub open spec fn pow128(n: nat) -> int
    decreases n,
{
    if n == 0 {
        1
    } else {
        128 * pow128((n - 1) as nat)
    }
}

/// The encoding is one to five bytes long, with the exact width fixed by the
/// seven-bit group count of the value.
pub proof fn lemma_varint_enc_len(v: u32)
    ensures
        varint_enc(v).len() == if v < 0x80 {
            1int
        } else if v < 0x4000 {
            2int
        } else if v < 0x20_0000 {
            3int
        } else if v < 0x1000_0000 {
            4int
        } else {
            5int
        },
    decreases v,
{
    if v >= 128 {
        lemma_varint_enc_len(v / 128);
    }
}

/// Every byte of the encoding except the last has its high bit set; the last
/// has it clear.
pub proof fn lemma_varint_enc_shape(v: u32)
    ensures
        forall|i: int| 0 <= i < varint_enc(v).len() - 1 ==> varint_enc(v)[i] >= 128,
        varint_enc(v).last() < 128,
    decreases v,
{
    if v >= 128 {
        lemma_varint_enc_shape(v / 128);
        assert(varint_enc(v).drop_first() == varint_enc(v / 128));
    }
}

/// The groups of the encoding reassemble to the encoded value.
pub proof fn lemma_varint_enc_val(v: u32)
    ensures
        varint_val(varint_enc(v)) == v,
    decreases v,
{
    reveal_with_fuel(varint_val, 3);
    if v >= 128 {
        lemma_varint_enc_val(v / 128);
        assert(varint_enc(v).drop_first() == varint_enc(v / 128));
        assert(varint_enc(v)[0] == ((v % 128) + 128) as u8);
        assert((((v % 128) + 128) as u8) % 128 == v % 128);
    }
}

/// A scan of a buffer that starts with an encoding consumes exactly the
/// encoding, whatever follows it.
proof fn lemma_varint_scan_enc(v: u32, rest: Seq<u8>, fuel: nat)
    requires
        varint_enc(v).len() <= fuel,
    ensures
        varint_scan(varint_enc(v) + rest, fuel) == Some(varint_enc(v).len() as nat),
    decreases v,
{
    let s = varint_enc(v) + rest;
    if v < 128 {
        assert(s[0] == v as u8);
    } else {
        lemma_varint_scan_enc(v / 128, rest, (fuel - 1) as nat);
        assert(s.drop_first() == varint_enc(v / 128) + rest);
    }
}

/// Appending a byte adds its group at the most significant position.
pub proof fn lemma_varint_val_snoc(s: Seq<u8>, b: u8)
    ensures
        varint_val(s.push(b)) == varint_val(s) + (b % 128) * pow128(s.len()),
    decreases s.len(),
{
    reveal_with_fuel(varint_val, 3);
    if s.len() == 0 {
        assert(s.push(b) =~= seq![b]);
        assert(s.push(b).drop_first() =~= Seq::<u8>::empty());
    } else {
        lemma_varint_val_snoc(s.drop_first(), b);
        assert(s.push(b).drop_first() =~= s.drop_first().push(b));
        assert(s.push(b)[0] == s[0]);
        assert(128 * ((b % 128) * pow128((s.len() - 1) as nat)) == (b % 128) * (128 * pow128(
            (s.len() - 1) as nat,
        ))) by (nonlinear_arith);
    }
}

/// The accumulated value stays under the group count's capacity.
proof fn lemma_varint_val_bound(s: Seq<u8>)
    ensures
        0 <= varint_val(s) < pow128(s.len()),
    decreases s.len(),
{
    if s.len() > 0 {
        lemma_varint_val_bound(s.drop_first());
        assert(varint_val(s) < pow128(s.len())) by (nonlinear_arith)
            requires
                varint_val(s) == (s[0] % 128) + 128 * varint_val(s.drop_first()),
                0 <= varint_val(s.drop_first()) < pow128(s.drop_first().len()),
                pow128(s.len()) == 128 * pow128(s.drop_first().len()),
                0 <= s[0] % 128 < 128,
        ;
    }
}

/// `pow128` stays within fixed bounds over the five-byte scan window.
pub proof fn lemma_pow128_bounds(n: nat)
    requires
        n <= 5,
    ensures
        1 <= pow128(n) <= 0x8_0000_0000,
{
    assert(pow128(0) == 1);
    assert(pow128(1) == 128);
    assert(pow128(2) == 0x4000);
    assert(pow128(3) == 0x20_0000);
    assert(pow128(4) == 0x1000_0000);
    assert(pow128(5) == 0x8_0000_0000);
}

/// A scan stops at the first byte with a clear high bit.
proof fn lemma_varint_scan_terminator(s: Seq<u8>, fuel: nat, k: nat)
    requires
        k < fuel,
        k < s.len(),
        forall|j: int| 0 <= j < k ==> s[j] >= 128,
        s[k as int] < 128,
    ensures
        varint_scan(s, fuel) == Some((k + 1) as nat),
    decreases k,
{
    if k > 0 {
        assert forall|j: int| 0 <= j < k - 1 implies s.drop_first()[j] >= 128 by {
            assert(s.drop_first()[j] == s[j + 1]);
        }
        lemma_varint_scan_terminator(s.drop_first(), (fuel - 1) as nat, (k - 1) as nat);
    }
}

/// A scan that sees only set high bits up to its bound finds nothing.
proof fn lemma_varint_scan_none(s: Seq<u8>, fuel: nat, k: nat)
    requires
        k == fuel || k == s.len(),
        k <= fuel,
        k <= s.len(),
        forall|j: int| 0 <= j < k ==> s[j] >= 128,
    ensures
        varint_scan(s, fuel) is None,
    decreases k,
{
    if k > 0 {
        assert forall|j: int| 0 <= j < k - 1 implies s.drop_first()[j] >= 128 by {
            assert(s.drop_first()[j] == s[j + 1]);
        }
        lemma_varint_scan_none(s.drop_first(), (fuel - 1) as nat, (k - 1) as nat);
    }
}

/// Decoding from the head undoes encoding: the value comes back and exactly
/// the encoding's bytes are consumed.
pub proof fn lemma_varint_dec_enc(v: u32, rest: Seq<u8>)
    ensures
        varint_dec(varint_enc(v) + rest) == Ok::<_, CodecError>((v, varint_enc(v).len() as nat)),
{
    let e = varint_enc(v);
    lemma_varint_enc_len(v);
    lemma_varint_scan_enc(v, rest, 5);
    assert((e + rest).take(e.len() as int) =~= e);
    lemma_varint_enc_val(v);
    assert(varint_val(e) % 0x1_0000_0000 == v);
}

/// Decoding from the tail undoes reversed encoding.
pub proof fn lemma_varint_dec_rev_enc(v: u32, prefix: Seq<u8>)
    ensures
        varint_dec_rev(prefix + varint_enc(v).reverse()) == Ok::<_, CodecError>(
            (v, varint_enc(v).len() as nat),
        ),
{
    let e = varint_enc(v);
    assert((prefix + e.reverse()).reverse() =~= e + prefix.reverse());
    lemma_varint_dec_enc(v, prefix.reverse());
}

/// Encodes `i` in the forward orientation.
pub fn to_var_int(i: u32) -> (r: Vec<u8>)
    ensures
        r@ == varint_enc(i),
{
    let mut r: Vec<u8> = Vec::new();
    let mut x = i;
    while x >= 128
        invariant
            varint_enc(i) == r@ + varint_enc(x),
        decreases x,
    {
        r.push((x % 128 + 128) as u8);
        x = x / 128;
    }
    r.push(x as u8);
    assert(varint_enc(x) =~= seq![x as u8]);
    r
}

/// Decodes a forward-oriented encoding from the head of `data`, returning the
/// value and the number of bytes read.
pub fn from_var_int(data: &[u8]) -> (r: Result<(u32, usize), CodecError>)
    ensures
        match varint_dec(data@) {
            Ok((v, n)) => r == Ok::<_, CodecError>((v, n as usize)) && 1 <= n <= data@.len(),
            Err(e) => r == Err::<(u32, usize), _>(e),
        },
{
    let len = data.len();
    let mut value: u64 = 0;
    let mut mult: u64 = 1;
    let mut i: usize = 0;
    while i < 5
        invariant
            len == data@.len(),
            i <= 5,
            i <= len,
            i < 5 ==> mult == pow128(i as nat),
            value == varint_val(data@.take(i as int)),
            0 <= value < pow128(i as nat),
            forall|j: int| 0 <= j < i ==> data@[j] >= 128,
        decreases 5 - i,
    {
        if i >= len {
            proof {
                lemma_varint_scan_none(data@, 5, i as nat);
            }
            return Err(CodecError::InvalidData);
        }
        let b = data[i];
        proof {
            lemma_pow128_bounds(i as nat);
            lemma_pow128_bounds((i + 1) as nat);
            lemma_varint_val_snoc(data@.take(i as int), b);
            assert(data@.take(i + 1) =~= data@.take(i as int).push(b));
            assert(value + (b % 128) * pow128(i as nat) < pow128((i + 1) as nat))
                by (nonlinear_arith)
                requires
                    0 <= value < pow128(i as nat),
                    0 <= b % 128 < 128,
                    pow128((i + 1) as nat) == 128 * pow128(i as nat),
            ;
        }
        value = value + (b as u64 % 128) * mult;
        if b & 0x80 == 0 {
            assert(b < 128) by (bit_vector)
                requires
                    b & 0x80 == 0,
            ;
            proof {
                lemma_varint_scan_terminator(data@, 5, i as nat);
            }
            return Ok(((value % 0x1_0000_0000) as u32, i + 1));
        }
        assert(b >= 128) by (bit_vector)
            requires
                b & 0x80 != 0,
        ;
        if i < 4 {
            mult = mult * 128;
        }
        i = i + 1;
    }
    proof {
        lemma_varint_scan_none(data@, 5, 5);
    }
    Err(CodecError::InvalidData)
}

/// Decodes a reversed encoding from the tail of `data`, returning the value
/// and the number of bytes that the caller must remove from the tail.
pub fn from_var_int_rev(data: &Vec<u8>) -> (r: Result<(u32, usize), CodecError>)
    ensures
        match varint_dec_rev(data@) {
            Ok((v, n)) => r == Ok::<_, CodecError>((v, n as usize)) && 1 <= n <= data@.len(),
            Err(e) => r == Err::<(u32, usize), _>(e),
        },
{
    let ghost rev = data@.reverse();
    let len = data.len();
    let mut value: u64 = 0;
    let mut mult: u64 = 1;
    let mut i: usize = 0;
    while i < 5
        invariant
            rev == data@.reverse(),
            len == data@.len(),
            i <= 5,
            i <= len,
            i < 5 ==> mult == pow128(i as nat),
            value == varint_val(rev.take(i as int)),
            0 <= value < pow128(i as nat),
            forall|j: int| 0 <= j < i ==> rev[j] >= 128,
        decreases 5 - i,
    {
        if i >= len {
            proof {
                lemma_varint_scan_none(rev, 5, i as nat);
            }
            return Err(CodecError::InvalidData);
        }
        let b = data[len - 1 - i];
        proof {
            assert(rev[i as int] == b);
            lemma_pow128_bounds(i as nat);
            lemma_pow128_bounds((i + 1) as nat);
            lemma_varint_val_snoc(rev.take(i as int), b);
            assert(rev.take(i + 1) =~= rev.take(i as int).push(b));
            assert(value + (b % 128) * pow128(i as nat) < pow128((i + 1) as nat))
                by (nonlinear_arith)
                requires
                    0 <= value < pow128(i as nat),
                    0 <= b % 128 < 128,
                    pow128((i + 1) as nat) == 128 * pow128(i as nat),
            ;
        }
        value = value + (b as u64 % 128) * mult;
        if b & 0x80 == 0 {
            assert(b < 128) by (bit_vector)
                requires
                    b & 0x80 == 0,
            ;
            proof {
                lemma_varint_scan_terminator(rev, 5, i as nat);
            }
            return Ok(((value % 0x1_0000_0000) as u32, i + 1));
        }
        assert(b >= 128) by (bit_vector)
            requires
                b & 0x80 != 0,
        ;
        if i < 4 {
            mult = mult * 128;
        }
        i = i + 1;
    }
    proof {
        lemma_varint_scan_none(rev, 5, 5);
    }
    Err(CodecError::InvalidData)
}

/// A number with a variable-length encoding, at most `u32::MAX`, at most five
/// bytes wide. In a buffer it stands in the reversed orientation, as the
/// length tags of the unbounded containers do.
#[derive(Clone, Copy, Debug, PartialEq, Eq, Structural)]
pub struct VarInt(pub u32);

impl View for VarInt {
    type V = VarInt;

    open spec fn view(&self) -> VarInt {
        *self
    }
}

impl DeepView for VarInt {
    type V = VarInt;

    open spec fn deep_view(&self) -> VarInt {
        *self
    }
}

impl Convert for VarInt {
    open spec fn enc(&self) -> Seq<u8> {
        varint_enc(self.0).reverse()
    }

    open spec fn dec(s: Seq<u8>) -> Result<(Self, nat), CodecError> {
        match varint_dec_rev(s) {
            Ok((v, n)) => Ok((VarInt(v), n)),
            Err(e) => Err(e),
        }
    }

    open spec fn encodable(&self) -> bool {
        true
    }

    proof fn lemma_enc_dec(&self, prefix: Seq<u8>) {
        lemma_varint_dec_rev_enc(self.0, prefix);
    }

    fn to_bytes(&self, tx: &mut Vec<u8>) {
        let fwd = to_var_int(self.0);
        let len = fwd.len();
        let mut j = len;
        while j > 0
            invariant
                j <= len,
                len == fwd@.len(),
                fwd@ == varint_enc(self.0),
                tx@ == old(tx)@ + fwd@.reverse().take((len - j) as int),
            decreases j,
        {
            j = j - 1;
            proof {
                assert(fwd@.reverse().take((len - j) as int) =~= fwd@.reverse().take(
                    (len - j - 1) as int,
                ).push(fwd@[j as int]));
                assert(old(tx)@ + fwd@.reverse().take((len - j - 1) as int).push(fwd@[j as int])
                    =~= (old(tx)@ + fwd@.reverse().take((len - j - 1) as int)).push(
                    fwd@[j as int],
                ));
            }
            tx.push(fwd[j]);
        }
        proof {
            assert(fwd@.reverse().take(len as int) =~= fwd@.reverse());
        }
    }

    fn to_bytes_return(&self) -> (r: Vec<u8>) {
        let mut tx: Vec<u8> = Vec::new();
        self.to_bytes(&mut tx);
        proof {
            assert(tx@ =~= self.enc());
        }
        tx
    }

    fn from_bytes(rx: &mut Vec<u8>) -> (r: Result<Self, CodecError>) {
        let (v, n) = match from_var_int_rev(rx) {
            Ok(p) => p,
            Err(e) => {
                return Err(e);
            },
        };
        let len = rx.len();
        rx.truncate(len - n);
        Ok(VarInt(v))
    }
}

} // verus!
