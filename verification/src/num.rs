//! Fixed-width integers encode as little-endian bytes appended at the tail;
//! decoding pops the same width back off the tail. Signed values travel in
//! two's complement, and the pointer-sized types travel as eight bytes.
use vstd::prelude::*;

use crate::codec::{CodecError, Convert};

verus! {

/// 256 raised to `n`.
pub open spec fn pow256(n: nat) -> int
    decreases n,
{
    if n == 0 {
        1
    } else {
        256 * pow256((n - 1) as nat)
    }
}

/// The `n`-byte little-endian encoding of `v`; bits beyond the width are
/// discarded.
pub open spec fn le_bytes(v: int, n: nat) -> Seq<u8>
    decreases n,
{
    if n == 0 {
        Seq::empty()
    } else {
        seq![(v % 256) as u8] + le_bytes(v / 256, (n - 1) as nat)
    }
}

/// The value of a little-endian byte sequence.
pub open spec fn le_val(s: Seq<u8>) -> int
    decreases s.len(),
{
    if s.len() == 0 {
        0
    } else {
        s[0] + 256 * le_val(s.drop_first())
    }
}

/// The encoding has exactly the asked-for width.
pub proof fn lemma_le_bytes_len(v: int, n: nat)
    ensures
        le_bytes(v, n).len() == n,
    decreases n,
{
    if n > 0 {
        lemma_le_bytes_len(v / 256, (n - 1) as nat);
    }
}

/// A value within the width's capacity comes back from its own bytes.
pub proof fn lemma_le_val_bytes(v: int, n: nat)
    requires
        0 <= v < pow256(n),
    ensures
        le_val(le_bytes(v, n)) == v,
    decreases n,
{
    reveal_with_fuel(le_val, 2);
    if n > 0 {
        assert(v / 256 < pow256((n - 1) as nat)) by (nonlinear_arith)
            requires
                0 <= v < 256 * pow256((n - 1) as nat),
        ;
        lemma_le_val_bytes(v / 256, (n - 1) as nat);
        assert(le_bytes(v, n).drop_first() == le_bytes(v / 256, (n - 1) as nat));
    }
}

/// The value of a byte sequence stays under its length's capacity.
pub proof fn lemma_le_val_bound(s: Seq<u8>)
    ensures
        0 <= le_val(s) < pow256(s.len()),
    decreases s.len(),
{
    if s.len() > 0 {
        lemma_le_val_bound(s.drop_first());
        assert(le_val(s) < pow256(s.len())) by (nonlinear_arith)
            requires
                le_val(s) == s[0] + 256 * le_val(s.drop_first()),
                0 <= le_val(s.drop_first()) < pow256(s.drop_first().len()),
                pow256(s.len()) == 256 * pow256(s.drop_first().len()),
                0 <= s[0] < 256,
        ;
    }
}

/// The capacities of the widths in use.
pub proof fn lemma_pow256_values()
    ensures
        pow256(0) == 1,
        pow256(1) == 0x100,
        pow256(2) == 0x1_0000,
        pow256(4) == 0x1_0000_0000,
        pow256(8) == 0x1_0000_0000_0000_0000,
        pow256(16) == 0x1_0000_0000_0000_0000_0000_0000_0000_0000,
{
    assert(pow256(0) == 1);
    assert(pow256(1) == 0x100);
    assert(pow256(2) == 0x1_0000);
    assert(pow256(3) == 0x100_0000);
    assert(pow256(4) == 0x1_0000_0000);
    assert(pow256(5) == 0x100_0000_0000);
    assert(pow256(6) == 0x1_0000_0000_0000);
    assert(pow256(7) == 0x100_0000_0000_0000);
    assert(pow256(8) == 0x1_0000_0000_0000_0000);
    assert(pow256(9) == 0x100_0000_0000_0000_0000);
    assert(pow256(10) == 0x1_0000_0000_0000_0000_0000);
    assert(pow256(11) == 0x100_0000_0000_0000_0000_0000);
    assert(pow256(12) == 0x1_0000_0000_0000_0000_0000_0000);
    assert(pow256(13) == 0x100_0000_0000_0000_0000_0000_0000);
    assert(pow256(14) == 0x1_0000_0000_0000_0000_0000_0000_0000);
    assert(pow256(15) == 0x100_0000_0000_0000_0000_0000_0000_0000);
    assert(pow256(16) == 0x1_0000_0000_0000_0000_0000_0000_0000_0000);
}

/// A buffer that ends with a fixed-width encoding gives the value back from
/// its last `n` bytes.
pub proof fn lemma_le_round_trip(prefix: Seq<u8>, v: int, n: nat)
    requires
        0 <= v < pow256(n),
    ensures
        le_bytes(v, n).len() == n,
        le_val((prefix + le_bytes(v, n)).skip(prefix.len() as int)) == v,
{
    lemma_le_bytes_len(v, n);
    assert((prefix + le_bytes(v, n)).skip(prefix.len() as int) =~= le_bytes(v, n));
    lemma_le_val_bytes(v, n);
}

/// Appends the `n`-byte little-endian encoding of `v` at the tail of `tx`.
pub fn push_le(tx: &mut Vec<u8>, v: u128, n: usize)
    ensures
        final (tx)@ == old(tx)@ + le_bytes(v as int, n as nat),
{
    let ghost orig = old(tx)@;
    let mut x = v;
    let mut i: usize = 0;
    while i < n
        invariant
            i <= n,
            tx@.len() == orig.len() + i,
            tx@.take(orig.len() as int) == orig,
            le_bytes(v as int, n as nat) == tx@.skip(orig.len() as int) + le_bytes(
                x as int,
                (n - i) as nat,
            ),
        decreases n - i,
    {
        let b = (x % 256) as u8;
        proof {
            assert(tx@.push(b).take(orig.len() as int) =~= tx@.take(orig.len() as int));
            assert(tx@.push(b).skip(orig.len() as int) =~= tx@.skip(orig.len() as int).push(b));
            assert(tx@.skip(orig.len() as int).push(b) + le_bytes(x as int / 256, (n - i - 1) as nat)
                =~= tx@.skip(orig.len() as int) + (seq![b] + le_bytes(
                x as int / 256,
                (n - i - 1) as nat,
            )));
        }
        tx.push(b);
        x = x / 256;
        i = i + 1;
    }
    proof {
        assert(tx@ =~= tx@.take(orig.len() as int) + tx@.skip(orig.len() as int));
        assert(tx@.skip(orig.len() as int) + le_bytes(x as int, 0) =~= tx@.skip(
            orig.len() as int,
        ));
    }
}

/// Removes the last `n` bytes of `rx` and returns their little-endian value,
/// or reports that too few bytes stand in the buffer.
pub fn pop_le(rx: &mut Vec<u8>, n: usize) -> (r: Result<u128, CodecError>)
    requires
        n <= 16,
    ensures
        ({
            let len = old(rx)@.len();
            if len < n {
                r == Err::<u128, CodecError>(CodecError::UnexpectedEof) && final (rx)@ == old(rx)@
            } else {
                r == Ok::<u128, CodecError>(le_val(old(rx)@.skip((len - n) as int)) as u128)
                    && final (rx)@ == old(rx)@.take((len - n) as int)
            }
        }),
{
    let len = rx.len();
    if len < n {
        return Err(CodecError::UnexpectedEof);
    }
    let start = len - n;
    let ghost tail = rx@.skip(start as int);
    proof {
        lemma_le_val_bound(tail);
        lemma_pow256_values();
    }
    let mut v: u128 = 0;
    let mut i: usize = 0;
    while i < n
        invariant
            i <= n <= 16,
            start + n == len,
            len == rx@.len(),
            tail == rx@.skip(start as int),
            tail.len() == n,
            v == le_val(tail.skip((n - i) as int)),
        decreases n - i,
    {
        let idx = start + (n - 1 - i);
        proof {
            lemma_pow256_values();
            lemma_le_val_bound(tail.skip((n - i) as int));
            lemma_pow256_le((i) as nat, 15);
            assert(tail.skip((n - i - 1) as int).drop_first() =~= tail.skip((n - i) as int));
            assert(tail.skip((n - i - 1) as int)[0] == rx@[idx as int]);
        }
        v = v * 256 + rx[idx] as u128;
        i = i + 1;
    }
    proof {
        assert(tail.skip(0) =~= tail);
        lemma_le_val_bound(tail);
    }
    rx.truncate(start);
    Ok(v)
}

impl Convert for u8 {
    open spec fn enc(&self) -> Seq<u8> {
        le_bytes(*self as int, 1)
    }

    open spec fn dec(s: Seq<u8>) -> Result<(Self, nat), CodecError> {
        if s.len() < 1 {
            Err(CodecError::UnexpectedEof)
        } else {
            Ok(((le_val(s.skip(s.len() - 1)) as u8), 1))
        }
    }

    open spec fn encodable(&self) -> bool {
        true
    }

    proof fn lemma_enc_dec(&self, prefix: Seq<u8>) {
        lemma_pow256_values();
        lemma_le_round_trip(prefix, *self as int, 1);
    }

    fn to_bytes(&self, tx: &mut Vec<u8>) {
        push_le(tx, *self as u128, 1);
    }

    fn to_bytes_return(&self) -> (r: Vec<u8>) {
        let mut tx: Vec<u8> = Vec::new();
        push_le(&mut tx, *self as u128, 1);
        proof {
            assert(tx@ =~= self.enc());
        }
        tx
    }

    fn from_bytes(rx: &mut Vec<u8>) -> (r: Result<Self, CodecError>) {
        proof {
            lemma_pow256_values();
            if old(rx)@.len() >= 1 {
                lemma_le_val_bound(old(rx)@.skip(old(rx)@.len() - 1));
            }
        }
        let v = match pop_le(rx, 1) {
            Ok(v) => v,
            Err(e) => {
                return Err(e);
            },
        };
        Ok(v as u8)
    }
}

impl Convert for u16 {
    open spec fn enc(&self) -> Seq<u8> {
        le_bytes(*self as int, 2)
    }

    open spec fn dec(s: Seq<u8>) -> Result<(Self, nat), CodecError> {
        if s.len() < 2 {
            Err(CodecError::UnexpectedEof)
        } else {
            Ok(((le_val(s.skip(s.len() - 2)) as u16), 2))
        }
    }

    open spec fn encodable(&self) -> bool {
        true
    }

    proof fn lemma_enc_dec(&self, prefix: Seq<u8>) {
        lemma_pow256_values();
        lemma_le_round_trip(prefix, *self as int, 2);
    }

    fn to_bytes(&self, tx: &mut Vec<u8>) {
        push_le(tx, *self as u128, 2);
    }

    fn to_bytes_return(&self) -> (r: Vec<u8>) {
        let mut tx: Vec<u8> = Vec::new();
        push_le(&mut tx, *self as u128, 2);
        proof {
            assert(tx@ =~= self.enc());
        }
        tx
    }

    fn from_bytes(rx: &mut Vec<u8>) -> (r: Result<Self, CodecError>) {
        proof {
            lemma_pow256_values();
            if old(rx)@.len() >= 2 {
                lemma_le_val_bound(old(rx)@.skip(old(rx)@.len() - 2));
            }
        }
        let v = match pop_le(rx, 2) {
            Ok(v) => v,
            Err(e) => {
                return Err(e);
            },
        };
        Ok(v as u16)
    }
}

impl Convert for u32 {
    open spec fn enc(&self) -> Seq<u8> {
        le_bytes(*self as int, 4)
    }

    open spec fn dec(s: Seq<u8>) -> Result<(Self, nat), CodecError> {
        if s.len() < 4 {
            Err(CodecError::UnexpectedEof)
        } else {
            Ok(((le_val(s.skip(s.len() - 4)) as u32), 4))
        }
    }

    open spec fn encodable(&self) -> bool {
        true
    }

    proof fn lemma_enc_dec(&self, prefix: Seq<u8>) {
        lemma_pow256_values();
        lemma_le_round_trip(prefix, *self as int, 4);
    }

    fn to_bytes(&self, tx: &mut Vec<u8>) {
        push_le(tx, *self as u128, 4);
    }

    fn to_bytes_return(&self) -> (r: Vec<u8>) {
        let mut tx: Vec<u8> = Vec::new();
        push_le(&mut tx, *self as u128, 4);
        proof {
            assert(tx@ =~= self.enc());
        }
        tx
    }

    fn from_bytes(rx: &mut Vec<u8>) -> (r: Result<Self, CodecError>) {
        proof {
            lemma_pow256_values();
            if old(rx)@.len() >= 4 {
                lemma_le_val_bound(old(rx)@.skip(old(rx)@.len() - 4));
            }
        }
        let v = match pop_le(rx, 4) {
            Ok(v) => v,
            Err(e) => {
                return Err(e);
            },
        };
        Ok(v as u32)
    }
}

impl Convert for u64 {
    open spec fn enc(&self) -> Seq<u8> {
        le_bytes(*self as int, 8)
    }

    open spec fn dec(s: Seq<u8>) -> Result<(Self, nat), CodecError> {
        if s.len() < 8 {
            Err(CodecError::UnexpectedEof)
        } else {
            Ok(((le_val(s.skip(s.len() - 8)) as u64), 8))
        }
    }

    open spec fn encodable(&self) -> bool {
        true
    }

    proof fn lemma_enc_dec(&self, prefix: Seq<u8>) {
        lemma_pow256_values();
        lemma_le_round_trip(prefix, *self as int, 8);
    }

    fn to_bytes(&self, tx: &mut Vec<u8>) {
        push_le(tx, *self as u128, 8);
    }

    fn to_bytes_return(&self) -> (r: Vec<u8>) {
        let mut tx: Vec<u8> = Vec::new();
        push_le(&mut tx, *self as u128, 8);
        proof {
            assert(tx@ =~= self.enc());
        }
        tx
    }

    fn from_bytes(rx: &mut Vec<u8>) -> (r: Result<Self, CodecError>) {
        proof {
            lemma_pow256_values();
            if old(rx)@.len() >= 8 {
                lemma_le_val_bound(old(rx)@.skip(old(rx)@.len() - 8));
            }
        }
        let v = match pop_le(rx, 8) {
            Ok(v) => v,
            Err(e) => {
                return Err(e);
            },
        };
        Ok(v as u64)
    }
}

impl Convert for u128 {
    open spec fn enc(&self) -> Seq<u8> {
        le_bytes(*self as int, 16)
    }

    open spec fn dec(s: Seq<u8>) -> Result<(Self, nat), CodecError> {
        if s.len() < 16 {
            Err(CodecError::UnexpectedEof)
        } else {
            Ok(((le_val(s.skip(s.len() - 16)) as u128), 16))
        }
    }

    open spec fn encodable(&self) -> bool {
        true
    }

    proof fn lemma_enc_dec(&self, prefix: Seq<u8>) {
        lemma_pow256_values();
        lemma_le_round_trip(prefix, *self as int, 16);
    }

    fn to_bytes(&self, tx: &mut Vec<u8>) {
        push_le(tx, *self, 16);
    }

    fn to_bytes_return(&self) -> (r: Vec<u8>) {
        let mut tx: Vec<u8> = Vec::new();
        push_le(&mut tx, *self, 16);
        proof {
            assert(tx@ =~= self.enc());
        }
        tx
    }

    fn from_bytes(rx: &mut Vec<u8>) -> (r: Result<Self, CodecError>) {
        proof {
            lemma_pow256_values();
            if old(rx)@.len() >= 16 {
                lemma_le_val_bound(old(rx)@.skip(old(rx)@.len() - 16));
            }
        }
        match pop_le(rx, 16) {
            Ok(v) => Ok(v),
            Err(e) => Err(e),
        }
    }
}

impl Convert for i8 {
    open spec fn enc(&self) -> Seq<u8> {
        le_bytes((*self as u8) as int, 1)
    }

    open spec fn dec(s: Seq<u8>) -> Result<(Self, nat), CodecError> {
        if s.len() < 1 {
            Err(CodecError::UnexpectedEof)
        } else {
            Ok((((le_val(s.skip(s.len() - 1)) as u8) as i8), 1))
        }
    }

    open spec fn encodable(&self) -> bool {
        true
    }

    proof fn lemma_enc_dec(&self, prefix: Seq<u8>) {
        lemma_pow256_values();
        lemma_le_round_trip(prefix, (*self as u8) as int, 1);
        let x: i8 = *self;
        assert(x as u8 as i8 == x) by (bit_vector);
    }

    fn to_bytes(&self, tx: &mut Vec<u8>) {
        push_le(tx, (#[verifier::truncate] (*self as u8)) as u128, 1);
    }

    fn to_bytes_return(&self) -> (r: Vec<u8>) {
        let mut tx: Vec<u8> = Vec::new();
        push_le(&mut tx, (#[verifier::truncate] (*self as u8)) as u128, 1);
        proof {
            assert(tx@ =~= self.enc());
        }
        tx
    }

    fn from_bytes(rx: &mut Vec<u8>) -> (r: Result<Self, CodecError>) {
        proof {
            lemma_pow256_values();
            if old(rx)@.len() >= 1 {
                lemma_le_val_bound(old(rx)@.skip(old(rx)@.len() - 1));
            }
        }
        let v = match pop_le(rx, 1) {
            Ok(v) => v,
            Err(e) => {
                return Err(e);
            },
        };
        Ok(#[verifier::truncate] ((v as u8) as i8))
    }
}

impl Convert for i16 {
    open spec fn enc(&self) -> Seq<u8> {
        le_bytes((*self as u16) as int, 2)
    }

    open spec fn dec(s: Seq<u8>) -> Result<(Self, nat), CodecError> {
        if s.len() < 2 {
            Err(CodecError::UnexpectedEof)
        } else {
            Ok((((le_val(s.skip(s.len() - 2)) as u16) as i16), 2))
        }
    }

    open spec fn encodable(&self) -> bool {
        true
    }

    proof fn lemma_enc_dec(&self, prefix: Seq<u8>) {
        lemma_pow256_values();
        lemma_le_round_trip(prefix, (*self as u16) as int, 2);
        let x: i16 = *self;
        assert(x as u16 as i16 == x) by (bit_vector);
    }

    fn to_bytes(&self, tx: &mut Vec<u8>) {
        push_le(tx, (#[verifier::truncate] (*self as u16)) as u128, 2);
    }

    fn to_bytes_return(&self) -> (r: Vec<u8>) {
        let mut tx: Vec<u8> = Vec::new();
        push_le(&mut tx, (#[verifier::truncate] (*self as u16)) as u128, 2);
        proof {
            assert(tx@ =~= self.enc());
        }
        tx
    }

    fn from_bytes(rx: &mut Vec<u8>) -> (r: Result<Self, CodecError>) {
        proof {
            lemma_pow256_values();
            if old(rx)@.len() >= 2 {
                lemma_le_val_bound(old(rx)@.skip(old(rx)@.len() - 2));
            }
        }
        let v = match pop_le(rx, 2) {
            Ok(v) => v,
            Err(e) => {
                return Err(e);
            },
        };
        Ok(#[verifier::truncate] ((v as u16) as i16))
    }
}

impl Convert for i32 {
    open spec fn enc(&self) -> Seq<u8> {
        le_bytes((*self as u32) as int, 4)
    }

    open spec fn dec(s: Seq<u8>) -> Result<(Self, nat), CodecError> {
        if s.len() < 4 {
            Err(CodecError::UnexpectedEof)
        } else {
            Ok((((le_val(s.skip(s.len() - 4)) as u32) as i32), 4))
        }
    }

    open spec fn encodable(&self) -> bool {
        true
    }

    proof fn lemma_enc_dec(&self, prefix: Seq<u8>) {
        lemma_pow256_values();
        lemma_le_round_trip(prefix, (*self as u32) as int, 4);
        let x: i32 = *self;
        assert(x as u32 as i32 == x) by (bit_vector);
    }

    fn to_bytes(&self, tx: &mut Vec<u8>) {
        push_le(tx, (#[verifier::truncate] (*self as u32)) as u128, 4);
    }

    fn to_bytes_return(&self) -> (r: Vec<u8>) {
        let mut tx: Vec<u8> = Vec::new();
        push_le(&mut tx, (#[verifier::truncate] (*self as u32)) as u128, 4);
        proof {
            assert(tx@ =~= self.enc());
        }
        tx
    }

    fn from_bytes(rx: &mut Vec<u8>) -> (r: Result<Self, CodecError>) {
        proof {
            lemma_pow256_values();
            if old(rx)@.len() >= 4 {
                lemma_le_val_bound(old(rx)@.skip(old(rx)@.len() - 4));
            }
        }
        let v = match pop_le(rx, 4) {
            Ok(v) => v,
            Err(e) => {
                return Err(e);
            },
        };
        Ok(#[verifier::truncate] ((v as u32) as i32))
    }
}

impl Convert for i64 {
    open spec fn enc(&self) -> Seq<u8> {
        le_bytes((*self as u64) as int, 8)
    }

    open spec fn dec(s: Seq<u8>) -> Result<(Self, nat), CodecError> {
        if s.len() < 8 {
            Err(CodecError::UnexpectedEof)
        } else {
            Ok((((le_val(s.skip(s.len() - 8)) as u64) as i64), 8))
        }
    }

    open spec fn encodable(&self) -> bool {
        true
    }

    proof fn lemma_enc_dec(&self, prefix: Seq<u8>) {
        lemma_pow256_values();
        lemma_le_round_trip(prefix, (*self as u64) as int, 8);
        let x: i64 = *self;
        assert(x as u64 as i64 == x) by (bit_vector);
    }

    fn to_bytes(&self, tx: &mut Vec<u8>) {
        push_le(tx, (#[verifier::truncate] (*self as u64)) as u128, 8);
    }

    fn to_bytes_return(&self) -> (r: Vec<u8>) {
        let mut tx: Vec<u8> = Vec::new();
        push_le(&mut tx, (#[verifier::truncate] (*self as u64)) as u128, 8);
        proof {
            assert(tx@ =~= self.enc());
        }
        tx
    }

    fn from_bytes(rx: &mut Vec<u8>) -> (r: Result<Self, CodecError>) {
        proof {
            lemma_pow256_values();
            if old(rx)@.len() >= 8 {
                lemma_le_val_bound(old(rx)@.skip(old(rx)@.len() - 8));
            }
        }
        let v = match pop_le(rx, 8) {
            Ok(v) => v,
            Err(e) => {
                return Err(e);
            },
        };
        Ok(#[verifier::truncate] ((v as u64) as i64))
    }
}

impl Convert for i128 {
    open spec fn enc(&self) -> Seq<u8> {
        le_bytes((*self as u128) as int, 16)
    }

    open spec fn dec(s: Seq<u8>) -> Result<(Self, nat), CodecError> {
        if s.len() < 16 {
            Err(CodecError::UnexpectedEof)
        } else {
            Ok((((le_val(s.skip(s.len() - 16)) as u128) as i128), 16))
        }
    }

    open spec fn encodable(&self) -> bool {
        true
    }

    proof fn lemma_enc_dec(&self, prefix: Seq<u8>) {
        lemma_pow256_values();
        lemma_le_round_trip(prefix, (*self as u128) as int, 16);
        let x: i128 = *self;
        assert(x as u128 as i128 == x) by (bit_vector);
    }

    fn to_bytes(&self, tx: &mut Vec<u8>) {
        push_le(tx, #[verifier::truncate] (*self as u128), 16);
    }

    fn to_bytes_return(&self) -> (r: Vec<u8>) {
        let mut tx: Vec<u8> = Vec::new();
        push_le(&mut tx, #[verifier::truncate] (*self as u128), 16);
        proof {
            assert(tx@ =~= self.enc());
        }
        tx
    }

    fn from_bytes(rx: &mut Vec<u8>) -> (r: Result<Self, CodecError>) {
        proof {
            lemma_pow256_values();
            if old(rx)@.len() >= 16 {
                lemma_le_val_bound(old(rx)@.skip(old(rx)@.len() - 16));
            }
        }
        let v = match pop_le(rx, 16) {
            Ok(v) => v,
            Err(e) => {
                return Err(e);
            },
        };
        Ok(#[verifier::truncate] (v as i128))
    }
}

impl Convert for usize {
    open spec fn enc(&self) -> Seq<u8> {
        le_bytes((*self as u64) as int, 8)
    }

    open spec fn dec(s: Seq<u8>) -> Result<(Self, nat), CodecError> {
        if s.len() < 8 {
            Err(CodecError::UnexpectedEof)
        } else {
            Ok((((le_val(s.skip(s.len() - 8)) as u64) as usize), 8))
        }
    }

    open spec fn encodable(&self) -> bool {
        true
    }

    proof fn lemma_enc_dec(&self, prefix: Seq<u8>) {
        lemma_pow256_values();
        lemma_le_round_trip(prefix, (*self as u64) as int, 8);
    }

    fn to_bytes(&self, tx: &mut Vec<u8>) {
        push_le(tx, (*self as u64) as u128, 8);
    }

    fn to_bytes_return(&self) -> (r: Vec<u8>) {
        let mut tx: Vec<u8> = Vec::new();
        push_le(&mut tx, (*self as u64) as u128, 8);
        proof {
            assert(tx@ =~= self.enc());
        }
        tx
    }

    fn from_bytes(rx: &mut Vec<u8>) -> (r: Result<Self, CodecError>) {
        proof {
            lemma_pow256_values();
            if old(rx)@.len() >= 8 {
                lemma_le_val_bound(old(rx)@.skip(old(rx)@.len() - 8));
            }
        }
        let v = match pop_le(rx, 8) {
            Ok(v) => v,
            Err(e) => {
                return Err(e);
            },
        };
        Ok(#[verifier::truncate] ((v as u64) as usize))
    }
}

impl Convert for isize {
    open spec fn enc(&self) -> Seq<u8> {
        le_bytes(((*self as i64) as u64) as int, 8)
    }

    open spec fn dec(s: Seq<u8>) -> Result<(Self, nat), CodecError> {
        if s.len() < 8 {
            Err(CodecError::UnexpectedEof)
        } else {
            Ok(((((le_val(s.skip(s.len() - 8)) as u64) as i64) as isize), 8))
        }
    }

    open spec fn encodable(&self) -> bool {
        true
    }

    proof fn lemma_enc_dec(&self, prefix: Seq<u8>) {
        lemma_pow256_values();
        lemma_le_round_trip(prefix, ((*self as i64) as u64) as int, 8);
        let x: i64 = *self as i64;
        assert(x as u64 as i64 == x) by (bit_vector);
    }

    fn to_bytes(&self, tx: &mut Vec<u8>) {
        push_le(tx, (#[verifier::truncate] ((*self as i64) as u64)) as u128, 8);
    }

    fn to_bytes_return(&self) -> (r: Vec<u8>) {
        let mut tx: Vec<u8> = Vec::new();
        push_le(&mut tx, (#[verifier::truncate] ((*self as i64) as u64)) as u128, 8);
        proof {
            assert(tx@ =~= self.enc());
        }
        tx
    }

    fn from_bytes(rx: &mut Vec<u8>) -> (r: Result<Self, CodecError>) {
        proof {
            lemma_pow256_values();
            if old(rx)@.len() >= 8 {
                lemma_le_val_bound(old(rx)@.skip(old(rx)@.len() - 8));
            }
        }
        let v = match pop_le(rx, 8) {
            Ok(v) => v,
            Err(e) => {
                return Err(e);
            },
        };
        Ok(#[verifier::truncate] (((v as u64) as i64) as isize))
    }
}

/// `pow256` is monotone over the widths in use.
proof fn lemma_pow256_le(a: nat, b: nat)
    requires
        a <= b,
        b <= 16,
    ensures
        pow256(a) <= pow256(b),
    decreases b,
{
    if a < b {
        lemma_pow256_le(a, (b - 1) as nat);
        assert(pow256(b) == 256 * pow256((b - 1) as nat));
        assert(pow256((b - 1) as nat) >= 1) by {
            lemma_pow256_pos((b - 1) as nat);
        }
    }
}

/// `pow256` is positive.
proof fn lemma_pow256_pos(n: nat)
    ensures
        pow256(n) >= 1,
    decreases n,
{
    if n > 0 {
        lemma_pow256_pos((n - 1) as nat);
    }
}

} // verus!
