//! Vectors on the wire: the payload elements are appended first, in reverse
//! index order, and the element count last, nearest the tail. Decoding pops
//! the count, then the elements, recovering them in their original order.
//!
//! Four size classes carry the count as a fixed-width little-endian prefix
//! of one, two, four or eight bytes; the plain `Vec` carries it as a
//! variable-length tag in the reversed orientation. A vector longer than its
//! class's cap is truncated: only the cap's worth of elements is encoded and
//! the count field holds the cap itself.
use vstd::prelude::*;

use crate::codec::{CodecError, Convert};
use crate::num::{le_bytes, le_val, lemma_le_round_trip, lemma_pow256_values, pop_le, push_le};
use crate::varint::{varint_dec_rev, varint_enc, VarInt};

verus! {

/// The concatenated encodings of the elements of `elems`, in reverse index
/// order: the last element's bytes first, element 0's bytes last, so that
/// element 0 sits nearest the tail.
pub open spec fn enc_elems_rev<T: Convert>(elems: Seq<T>) -> Seq<u8>
    decreases elems.len(),
{
    if elems.len() == 0 {
        Seq::empty()
    } else {
        enc_elems_rev(elems.drop_first()) + elems[0].enc()
    }
}

/// What decoding `k` consecutive elements takes from the tail of `s`: their
/// models in logical order and the consumed byte count, or the first error.
pub open spec fn dec_elems<T: Convert>(s: Seq<u8>, k: nat) -> Result<
    (Seq<<T as DeepView>::V>, nat),
    CodecError,
>
    decreases k,
{
    if k == 0 {
        Ok((Seq::empty(), 0))
    } else {
        match T::dec(s) {
            Ok((x, n)) => match dec_elems::<T>(s.take(s.len() - n), (k - 1) as nat) {
                Ok((rest, m)) => Ok((seq![x] + rest, (n + m) as nat)),
                Err(e) => Err(e),
            },
            Err(e) => Err(e),
        }
    }
}

/// The models of the values of `elems`.
pub open spec fn deep_elems<T: Convert>(elems: Seq<T>) -> Seq<<T as DeepView>::V> {
    Seq::new(elems.len(), |i: int| elems[i].deep_view())
}

/// Whether every element is within its own caps.
pub open spec fn all_encodable<T: Convert>(elems: Seq<T>) -> bool {
    forall|i: int| 0 <= i < elems.len() ==> #[trigger] elems[i].encodable()
}

/// Decoding as many elements as were encoded undoes the reversed encoding:
/// the models come back in order and exactly the elements' bytes are
/// consumed.
pub proof fn lemma_enc_dec_elems<T: Convert>(elems: Seq<T>, prefix: Seq<u8>)
    requires
        all_encodable(elems),
    ensures
        dec_elems::<T>(prefix + enc_elems_rev(elems), elems.len()) == Ok::<_, CodecError>(
            (deep_elems(elems), enc_elems_rev(elems).len() as nat),
        ),
    decreases elems.len(),
{
    if elems.len() == 0 {
        assert(deep_elems::<T>(elems) =~= Seq::<<T as DeepView>::V>::empty());
    } else {
        let e0 = elems[0];
        let rest = elems.drop_first();
        let s = prefix + enc_elems_rev(elems);
        assert(s =~= (prefix + enc_elems_rev(rest)) + e0.enc());
        e0.lemma_enc_dec(prefix + enc_elems_rev(rest));
        assert(s.take(s.len() - e0.enc().len()) =~= prefix + enc_elems_rev(rest));
        assert forall|i: int| 0 <= i < rest.len() implies #[trigger] rest[i].encodable() by {
            assert(rest[i] == elems[i + 1]);
        }
        lemma_enc_dec_elems::<T>(rest, prefix);
        assert(deep_elems(elems) =~= seq![e0.deep_view()] + deep_elems(rest));
    }
}

/// What a tagged element run decodes to: for any element order within the
/// cap, the vector codec reads back exactly those elements' models from a
/// buffer that holds their reversed encodings under a reversed count tag.
/// Stated over the order itself, it also covers the hash collections, whose
/// iteration order is free.
pub proof fn lemma_tagged_elems_round_trip<T: Convert>(order: Seq<T>, prefix: Seq<u8>)
    requires
        order.len() <= u32::MAX,
        all_encodable(order),
    ensures
        Vec::<T>::dec(prefix + (enc_elems_rev(order) + varint_enc(order.len() as u32).reverse()))
            == Ok::<_, CodecError>(
            (
                deep_elems(order),
                (enc_elems_rev(order).len() + varint_enc(order.len() as u32).len()) as nat,
            ),
        ),
{
    crate::varint::lemma_varint_dec_rev_enc(order.len() as u32, prefix + enc_elems_rev(order));
    let s = prefix + (enc_elems_rev(order) + varint_enc(order.len() as u32).reverse());
    assert(s =~= (prefix + enc_elems_rev(order)) + varint_enc(order.len() as u32).reverse());
    let n = varint_enc(order.len() as u32).reverse().len();
    assert(s.take(s.len() - n) =~= prefix + enc_elems_rev(order));
    lemma_enc_dec_elems::<T>(order, prefix);
}

/// Appends the encodings of the first `count` elements of `elems`, highest
/// index first.
fn encode_elems<T: Convert>(elems: &Vec<T>, count: usize, tx: &mut Vec<u8>)
    requires
        count <= elems@.len(),
    ensures
        final (tx)@ == old(tx)@ + enc_elems_rev(elems@.take(count as int)),
{
    let ghost target = elems@.take(count as int);
    let mut i = count;
    while i > 0
        invariant
            i <= count <= elems@.len(),
            target == elems@.take(count as int),
            tx@ == old(tx)@ + enc_elems_rev(target.skip(i as int)),
        decreases i,
    {
        i = i - 1;
        let e = &elems[i];
        e.to_bytes(tx);
        proof {
            assert(target.skip(i as int).drop_first() =~= target.skip(i + 1));
            assert(target.skip(i as int)[0] == elems@[i as int]);
            assert(old(tx)@ + enc_elems_rev(target.skip(i + 1)) + elems@[i as int].enc() =~= old(
                tx,
            )@ + enc_elems_rev(target.skip(i as int)));
        }
    }
    proof {
        assert(target.skip(0) =~= target);
    }
}

/// Decodes `count` elements off the tail of `rx`, the first logical element
/// popped first.
#[verifier::loop_isolation(false)]
fn decode_elems<T: Convert>(rx: &mut Vec<u8>, count: usize) -> (r: Result<Vec<T>, CodecError>)
    ensures
        match dec_elems::<T>(old(rx)@, count as nat) {
            Ok((models, n)) => {
                &&& r is Ok
                &&& r->Ok_0.deep_view() == models
                &&& n <= old(rx)@.len()
                &&& final (rx)@ == old(rx)@.take(old(rx)@.len() - n)
            },
            Err(e) => r is Err && r->Err_0 == e,
        },
{
    let ghost orig = old(rx)@;
    let mut res: Vec<T> = Vec::new();
    let mut i: usize = 0;
    while i < count
        invariant
            i <= count,
            res@.len() == i,
            rx@.len() <= orig.len(),
            rx@ == orig.take(rx@.len() as int),
            dec_elems::<T>(orig, count as nat) == (match dec_elems::<T>(
                rx@,
                (count - i) as nat,
            ) {
                Ok((rest, m)) => Ok::<_, CodecError>(
                    (res.deep_view() + rest, ((orig.len() - rx@.len()) + m) as nat),
                ),
                Err(e) => Err::<(Seq<<T as DeepView>::V>, nat), CodecError>(e),
            }),
        decreases count - i,
    {
        let ghost before = rx@;
        match T::from_bytes(rx) {
            Ok(x) => {
                proof {
                    let n = T::dec(before)->Ok_0.1;
                    assert(before.take(before.len() - n).take(
                        before.take(before.len() - n).len() as int,
                    ) =~= before.take(before.len() - n));
                    assert(orig.take(before.len() - n) =~= before.take(before.len() - n));
                    assert(res@.push(x).len() == i + 1);
                    assert(res.deep_view().push(x.deep_view()) =~= Seq::new(
                        res@.push(x).len(),
                        |j: int| res@.push(x)[j].deep_view(),
                    ));
                    let xd = T::dec(before)->Ok_0.0;
                    if let Ok((rest2, m2)) = dec_elems::<T>(
                        before.take(before.len() - n),
                        (count - i - 1) as nat,
                    ) {
                        assert(res.deep_view().push(xd) + rest2 =~= res.deep_view() + (seq![xd]
                            + rest2));
                    }
                }
                res.push(x);
            },
            Err(e) => {
                proof {
                    assert(T::dec(before) is Err && T::dec(before)->Err_0 == e);
                    assert(dec_elems::<T>(before, (count - i) as nat) == Err::<
                        (Seq<<T as DeepView>::V>, nat),
                        CodecError,
                    >(e));
                    assert(dec_elems::<T>(orig, count as nat) == Err::<
                        (Seq<<T as DeepView>::V>, nat),
                        CodecError,
                    >(e));
                    assert(match dec_elems::<T>(orig, count as nat) {
                        Ok((models, n)) => false,
                        Err(e2) => e2 == e,
                    });
                }
                return Err(e);
            },
        }
        i = i + 1;
    }
    proof {
        assert(res.deep_view() + Seq::<<T as DeepView>::V>::empty() =~= res.deep_view());
        assert(orig.take(rx@.len() as int) == rx@);
    }
    Ok(res)
}

/// A vector with a one-byte count: at most 255 elements are encoded.
#[derive(Clone, Debug, PartialEq)]
pub struct TinyVec<T: Convert>(pub Vec<T>);

impl<T: Convert> View for TinyVec<T> {
    type V = Seq<T>;

    open spec fn view(&self) -> Seq<T> {
        self.0@
    }
}

impl<T: Convert> DeepView for TinyVec<T> {
    type V = Seq<<T as DeepView>::V>;

    open spec fn deep_view(&self) -> Seq<<T as DeepView>::V> {
        self.0.deep_view()
    }
}

impl<T: Convert> Convert for TinyVec<T> {
    open spec fn enc(&self) -> Seq<u8> {
        let count = if self.0@.len() < 0xFF {
            self.0@.len() as int
        } else {
            0xFF
        };
        enc_elems_rev(self.0@.take(count)) + le_bytes(count, 1)
    }

    open spec fn dec(s: Seq<u8>) -> Result<(Seq<<T as DeepView>::V>, nat), CodecError> {
        if s.len() < 1 {
            Err(CodecError::UnexpectedEof)
        } else {
            let size = le_val(s.skip(s.len() - 1));
            match dec_elems::<T>(s.drop_last(), size as nat) {
                Ok((models, m)) => Ok((models, (1 + m) as nat)),
                Err(e) => Err(e),
            }
        }
    }

    open spec fn encodable(&self) -> bool {
        self.0@.len() <= 0xFF && all_encodable(self.0@)
    }

    proof fn lemma_enc_dec(&self, prefix: Seq<u8>) {
        let elems = self.0@;
        let s = prefix + self.enc();
        assert(elems.take(elems.len() as int) =~= elems);
        lemma_pow256_values();
        lemma_le_round_trip(prefix + enc_elems_rev(elems), elems.len() as int, 1);
        assert(s =~= (prefix + enc_elems_rev(elems)) + le_bytes(elems.len() as int, 1));
        assert(s.skip(s.len() - 1) =~= (prefix + enc_elems_rev(elems) + le_bytes(
            elems.len() as int,
            1,
        )).skip(prefix.len() + enc_elems_rev(elems).len() as int));
        assert(s.drop_last() =~= prefix + enc_elems_rev(elems));
        lemma_enc_dec_elems::<T>(elems, prefix);
        assert(self.deep_view() =~= deep_elems(elems));
    }

    fn to_bytes(&self, tx: &mut Vec<u8>) {
        let len = self.0.len();
        let count = if len < 0xFF {
            len
        } else {
            0xFF
        };
        encode_elems(&self.0, count, tx);
        push_le(tx, count as u128, 1);
        proof {
            assert(old(tx)@ + enc_elems_rev(self.0@.take(count as int)) + le_bytes(
                count as int,
                1,
            ) =~= old(tx)@ + self.enc());
        }
    }

    fn to_bytes_return(&self) -> (r: Vec<u8>) {
        let mut tx: Vec<u8> = Vec::new();
        self.to_bytes(&mut tx);
        proof {
            assert(tx@ =~= self.enc());
        }
        tx
    }

    fn from_bytes(rx: &mut Vec<u8>) -> (r: Result<Self, CodecError>) {
        let ghost orig = old(rx)@;
        let size = match pop_le(rx, 1) {
            Ok(v) => v,
            Err(e) => {
                return Err(e);
            },
        };
        proof {
            crate::num::lemma_le_val_bound(orig.skip(orig.len() - 1));
            lemma_pow256_values();
            assert(rx@ =~= orig.drop_last());
        }
        let count = size as usize;
        match decode_elems::<T>(rx, count) {
            Ok(v) => {
                proof {
                    if let Ok((_, m)) = dec_elems::<T>(orig.drop_last(), count as nat) {
                        assert(orig.drop_last().take(orig.drop_last().len() - m) =~= orig.take(
                            orig.len() - (1 + m),
                        ));
                    }
                }
                Ok(TinyVec(v))
            },
            Err(e) => Err(e),
        }
    }
}

/// An overlong vector is truncated, not rejected: with the one-byte class,
/// only the first 255 elements are encoded, the recorded count is 255
/// itself, and decoding recovers exactly those 255 elements.
pub proof fn lemma_tiny_vec_truncation<T: Convert>(v: TinyVec<T>, prefix: Seq<u8>)
    requires
        v.0@.len() >= 0xFF,
        all_encodable(v.0@),
    ensures
        TinyVec::<T>::dec(prefix + v.enc()) == Ok::<_, CodecError>(
            (deep_elems(v.0@.take(0xFF)), v.enc().len() as nat),
        ),
        v.enc().len() == enc_elems_rev(v.0@.take(0xFF)).len() + 1,
        v.enc().last() == 0xFFu8,
{
    let elems = v.0@.take(0xFF);
    let s = prefix + v.enc();
    assert forall|i: int| 0 <= i < elems.len() implies #[trigger] elems[i].encodable() by {
        assert(elems[i] == v.0@[i]);
    }
    lemma_pow256_values();
    lemma_le_round_trip(prefix + enc_elems_rev(elems), 0xFF, 1);
    assert(s =~= (prefix + enc_elems_rev(elems)) + le_bytes(0xFF, 1));
    assert(s.skip(s.len() - 1) =~= (prefix + enc_elems_rev(elems) + le_bytes(0xFF, 1)).skip(
        prefix.len() + enc_elems_rev(elems).len() as int,
    ));
    assert(s.drop_last() =~= prefix + enc_elems_rev(elems));
    lemma_enc_dec_elems::<T>(elems, prefix);
    reveal_with_fuel(le_bytes, 2);
    assert(le_bytes(0xFF, 1) =~= seq![0xFFu8]);
}

/// A vector with a two-byte count: at most 65535 elements are encoded.
#[derive(Clone, Debug, PartialEq)]
pub struct ShortVec<T: Convert>(pub Vec<T>);

impl<T: Convert> View for ShortVec<T> {
    type V = Seq<T>;

    open spec fn view(&self) -> Seq<T> {
        self.0@
    }
}

impl<T: Convert> DeepView for ShortVec<T> {
    type V = Seq<<T as DeepView>::V>;

    open spec fn deep_view(&self) -> Seq<<T as DeepView>::V> {
        self.0.deep_view()
    }
}

impl<T: Convert> Convert for ShortVec<T> {
    open spec fn enc(&self) -> Seq<u8> {
        let count = if self.0@.len() < 0xFFFF {
            self.0@.len() as int
        } else {
            0xFFFF
        };
        enc_elems_rev(self.0@.take(count)) + le_bytes(count, 2)
    }

    open spec fn dec(s: Seq<u8>) -> Result<(Seq<<T as DeepView>::V>, nat), CodecError> {
        if s.len() < 2 {
            Err(CodecError::UnexpectedEof)
        } else {
            let size = le_val(s.skip(s.len() - 2));
            match dec_elems::<T>(s.take(s.len() - 2), size as nat) {
                Ok((models, m)) => Ok((models, (2 + m) as nat)),
                Err(e) => Err(e),
            }
        }
    }

    open spec fn encodable(&self) -> bool {
        self.0@.len() <= 0xFFFF && all_encodable(self.0@)
    }

    proof fn lemma_enc_dec(&self, prefix: Seq<u8>) {
        let elems = self.0@;
        let s = prefix + self.enc();
        assert(elems.take(elems.len() as int) =~= elems);
        lemma_pow256_values();
        lemma_le_round_trip(prefix + enc_elems_rev(elems), elems.len() as int, 2);
        assert(s =~= (prefix + enc_elems_rev(elems)) + le_bytes(elems.len() as int, 2));
        assert(s.skip(s.len() - 2) =~= (prefix + enc_elems_rev(elems) + le_bytes(
            elems.len() as int,
            2,
        )).skip(prefix.len() + enc_elems_rev(elems).len() as int));
        assert(s.take(s.len() - 2) =~= prefix + enc_elems_rev(elems));
        lemma_enc_dec_elems::<T>(elems, prefix);
        assert(self.deep_view() =~= deep_elems(elems));
    }

    fn to_bytes(&self, tx: &mut Vec<u8>) {
        let len = self.0.len();
        let count = if len < 0xFFFF {
            len
        } else {
            0xFFFF
        };
        encode_elems(&self.0, count, tx);
        push_le(tx, count as u128, 2);
        proof {
            assert(old(tx)@ + enc_elems_rev(self.0@.take(count as int)) + le_bytes(
                count as int,
                2,
            ) =~= old(tx)@ + self.enc());
        }
    }

    fn to_bytes_return(&self) -> (r: Vec<u8>) {
        let mut tx: Vec<u8> = Vec::new();
        self.to_bytes(&mut tx);
        proof {
            assert(tx@ =~= self.enc());
        }
        tx
    }

    fn from_bytes(rx: &mut Vec<u8>) -> (r: Result<Self, CodecError>) {
        let ghost orig = old(rx)@;
        let size = match pop_le(rx, 2) {
            Ok(v) => v,
            Err(e) => {
                return Err(e);
            },
        };
        proof {
            crate::num::lemma_le_val_bound(orig.skip(orig.len() - 2));
            lemma_pow256_values();
        }
        let count = size as usize;
        match decode_elems::<T>(rx, count) {
            Ok(v) => {
                proof {
                    if let Ok((_, m)) = dec_elems::<T>(orig.take(orig.len() - 2), count as nat) {
                        assert(orig.take(orig.len() - 2).take(orig.take(orig.len() - 2).len() - m)
                            =~= orig.take(orig.len() - (2 + m)));
                    }
                }
                Ok(ShortVec(v))
            },
            Err(e) => Err(e),
        }
    }
}

/// A vector with a four-byte count: at most `u32::MAX` elements are encoded.
#[derive(Clone, Debug, PartialEq)]
pub struct MediumVec<T: Convert>(pub Vec<T>);

impl<T: Convert> View for MediumVec<T> {
    type V = Seq<T>;

    open spec fn view(&self) -> Seq<T> {
        self.0@
    }
}

impl<T: Convert> DeepView for MediumVec<T> {
    type V = Seq<<T as DeepView>::V>;

    open spec fn deep_view(&self) -> Seq<<T as DeepView>::V> {
        self.0.deep_view()
    }
}

impl<T: Convert> Convert for MediumVec<T> {
    open spec fn enc(&self) -> Seq<u8> {
        let count = if self.0@.len() < 0xFFFF_FFFF {
            self.0@.len() as int
        } else {
            0xFFFF_FFFF
        };
        enc_elems_rev(self.0@.take(count)) + le_bytes(count, 4)
    }

    open spec fn dec(s: Seq<u8>) -> Result<(Seq<<T as DeepView>::V>, nat), CodecError> {
        if s.len() < 4 {
            Err(CodecError::UnexpectedEof)
        } else {
            let size = le_val(s.skip(s.len() - 4));
            match dec_elems::<T>(s.take(s.len() - 4), size as nat) {
                Ok((models, m)) => Ok((models, (4 + m) as nat)),
                Err(e) => Err(e),
            }
        }
    }

    open spec fn encodable(&self) -> bool {
        self.0@.len() <= 0xFFFF_FFFF && all_encodable(self.0@)
    }

    proof fn lemma_enc_dec(&self, prefix: Seq<u8>) {
        let elems = self.0@;
        let s = prefix + self.enc();
        assert(elems.take(elems.len() as int) =~= elems);
        lemma_pow256_values();
        lemma_le_round_trip(prefix + enc_elems_rev(elems), elems.len() as int, 4);
        assert(s =~= (prefix + enc_elems_rev(elems)) + le_bytes(elems.len() as int, 4));
        assert(s.skip(s.len() - 4) =~= (prefix + enc_elems_rev(elems) + le_bytes(
            elems.len() as int,
            4,
        )).skip(prefix.len() + enc_elems_rev(elems).len() as int));
        assert(s.take(s.len() - 4) =~= prefix + enc_elems_rev(elems));
        lemma_enc_dec_elems::<T>(elems, prefix);
        assert(self.deep_view() =~= deep_elems(elems));
    }

    fn to_bytes(&self, tx: &mut Vec<u8>) {
        let len = self.0.len();
        let count = if (len as u64) < 0xFFFF_FFFFu64 {
            len
        } else {
            0xFFFF_FFFFu64 as usize
        };
        encode_elems(&self.0, count, tx);
        push_le(tx, count as u128, 4);
        proof {
            assert(old(tx)@ + enc_elems_rev(self.0@.take(count as int)) + le_bytes(
                count as int,
                4,
            ) =~= old(tx)@ + self.enc());
        }
    }

    fn to_bytes_return(&self) -> (r: Vec<u8>) {
        let mut tx: Vec<u8> = Vec::new();
        self.to_bytes(&mut tx);
        proof {
            assert(tx@ =~= self.enc());
        }
        tx
    }

    fn from_bytes(rx: &mut Vec<u8>) -> (r: Result<Self, CodecError>) {
        let ghost orig = old(rx)@;
        let size = match pop_le(rx, 4) {
            Ok(v) => v,
            Err(e) => {
                return Err(e);
            },
        };
        proof {
            crate::num::lemma_le_val_bound(orig.skip(orig.len() - 4));
            lemma_pow256_values();
        }
        let count = size as usize;
        match decode_elems::<T>(rx, count) {
            Ok(v) => {
                proof {
                    if let Ok((_, m)) = dec_elems::<T>(orig.take(orig.len() - 4), count as nat) {
                        assert(orig.take(orig.len() - 4).take(orig.take(orig.len() - 4).len() - m)
                            =~= orig.take(orig.len() - (4 + m)));
                    }
                }
                Ok(MediumVec(v))
            },
            Err(e) => Err(e),
        }
    }
}

/// A vector with an eight-byte count. The cap of `u64::MAX` cannot be
/// exceeded by a vector in memory, so every element is always encoded.
#[derive(Clone, Debug, PartialEq)]
pub struct LongVec<T: Convert>(pub Vec<T>);

impl<T: Convert> View for LongVec<T> {
    type V = Seq<T>;

    open spec fn view(&self) -> Seq<T> {
        self.0@
    }
}

impl<T: Convert> DeepView for LongVec<T> {
    type V = Seq<<T as DeepView>::V>;

    open spec fn deep_view(&self) -> Seq<<T as DeepView>::V> {
        self.0.deep_view()
    }
}

impl<T: Convert> Convert for LongVec<T> {
    open spec fn enc(&self) -> Seq<u8> {
        enc_elems_rev(self.0@) + le_bytes(self.0@.len() as int, 8)
    }

    open spec fn dec(s: Seq<u8>) -> Result<(Seq<<T as DeepView>::V>, nat), CodecError> {
        if s.len() < 8 {
            Err(CodecError::UnexpectedEof)
        } else {
            let size = le_val(s.skip(s.len() - 8));
            if size > usize::MAX {
                Err(CodecError::UnexpectedEof)
            } else {
                match dec_elems::<T>(s.take(s.len() - 8), size as nat) {
                    Ok((models, m)) => Ok((models, (8 + m) as nat)),
                    Err(e) => Err(e),
                }
            }
        }
    }

    open spec fn encodable(&self) -> bool {
        all_encodable(self.0@)
    }

    proof fn lemma_enc_dec(&self, prefix: Seq<u8>) {
        let elems = self.0@;
        let s = prefix + self.enc();
        lemma_pow256_values();
        assert(elems.len() <= usize::MAX) by {
            broadcast use vstd::std_specs::vec::axiom_spec_len;

            assert(self.0.len() == self.0@.len());
        }
        lemma_le_round_trip(prefix + enc_elems_rev(elems), elems.len() as int, 8);
        assert(s =~= (prefix + enc_elems_rev(elems)) + le_bytes(elems.len() as int, 8));
        assert(s.skip(s.len() - 8) =~= (prefix + enc_elems_rev(elems) + le_bytes(
            elems.len() as int,
            8,
        )).skip(prefix.len() + enc_elems_rev(elems).len() as int));
        assert(s.take(s.len() - 8) =~= prefix + enc_elems_rev(elems));
        lemma_enc_dec_elems::<T>(elems, prefix);
        assert(self.deep_view() =~= deep_elems(elems));
    }

    fn to_bytes(&self, tx: &mut Vec<u8>) {
        let len = self.0.len();
        encode_elems(&self.0, len, tx);
        push_le(tx, len as u128, 8);
        proof {
            assert(self.0@.take(len as int) =~= self.0@);
            assert(old(tx)@ + enc_elems_rev(self.0@) + le_bytes(len as int, 8) =~= old(tx)@
                + self.enc());
        }
    }

    fn to_bytes_return(&self) -> (r: Vec<u8>) {
        let mut tx: Vec<u8> = Vec::new();
        self.to_bytes(&mut tx);
        proof {
            assert(tx@ =~= self.enc());
        }
        tx
    }

    fn from_bytes(rx: &mut Vec<u8>) -> (r: Result<Self, CodecError>) {
        let ghost orig = old(rx)@;
        let size = match pop_le(rx, 8) {
            Ok(v) => v,
            Err(e) => {
                return Err(e);
            },
        };
        proof {
            crate::num::lemma_le_val_bound(orig.skip(orig.len() - 8));
            lemma_pow256_values();
        }
        if size > usize::MAX as u128 {
            return Err(CodecError::UnexpectedEof);
        }
        let count = size as usize;
        match decode_elems::<T>(rx, count) {
            Ok(v) => {
                proof {
                    if let Ok((_, m)) = dec_elems::<T>(orig.take(orig.len() - 8), count as nat) {
                        assert(orig.take(orig.len() - 8).take(orig.take(orig.len() - 8).len() - m)
                            =~= orig.take(orig.len() - (8 + m)));
                    }
                }
                Ok(LongVec(v))
            },
            Err(e) => Err(e),
        }
    }
}

impl<T: Convert> Convert for Vec<T> {
    open spec fn enc(&self) -> Seq<u8> {
        let count = if self@.len() < 0xFFFF_FFFF {
            self@.len() as int
        } else {
            0xFFFF_FFFF
        };
        enc_elems_rev(self@.take(count)) + varint_enc(count as u32).reverse()
    }

    open spec fn dec(s: Seq<u8>) -> Result<(Seq<<T as DeepView>::V>, nat), CodecError> {
        match varint_dec_rev(s) {
            Ok((size, n)) => match dec_elems::<T>(s.take(s.len() - n), size as nat) {
                Ok((models, m)) => Ok((models, (n + m) as nat)),
                Err(e) => Err(e),
            },
            Err(e) => Err(e),
        }
    }

    open spec fn encodable(&self) -> bool {
        self@.len() <= 0xFFFF_FFFF && all_encodable(self@)
    }

    proof fn lemma_enc_dec(&self, prefix: Seq<u8>) {
        let elems = self@;
        let s = prefix + self.enc();
        assert(elems.take(elems.len() as int) =~= elems);
        crate::varint::lemma_varint_dec_rev_enc(
            elems.len() as u32,
            prefix + enc_elems_rev(elems),
        );
        assert(s =~= (prefix + enc_elems_rev(elems)) + varint_enc(elems.len() as u32).reverse());
        let n = varint_enc(elems.len() as u32).reverse().len();
        assert(s.take(s.len() - n) =~= prefix + enc_elems_rev(elems));
        lemma_enc_dec_elems::<T>(elems, prefix);
        assert(self.deep_view() =~= deep_elems(elems));
    }

    fn to_bytes(&self, tx: &mut Vec<u8>) {
        let len = self.len();
        let cap: usize = 0xFFFF_FFFFu32 as usize;
        let count = if len < cap {
            len
        } else {
            cap
        };
        encode_elems(self, count, tx);
        let tag = VarInt(count as u32);
        tag.to_bytes(tx);
        proof {
            assert(old(tx)@ + enc_elems_rev(self@.take(count as int)) + varint_enc(
                count as u32,
            ).reverse() =~= old(tx)@ + self.enc());
        }
    }

    fn to_bytes_return(&self) -> (r: Vec<u8>) {
        let mut tx: Vec<u8> = Vec::new();
        self.to_bytes(&mut tx);
        proof {
            assert(tx@ =~= self.enc());
        }
        tx
    }

    fn from_bytes(rx: &mut Vec<u8>) -> (r: Result<Self, CodecError>) {
        let ghost orig = old(rx)@;
        let tag = match VarInt::from_bytes(rx) {
            Ok(v) => v,
            Err(e) => {
                return Err(e);
            },
        };
        let ghost n = VarInt::dec(orig)->Ok_0.1;
        let count = tag.0 as usize;
        match decode_elems::<T>(rx, count) {
            Ok(v) => {
                proof {
                    if let Ok((_, m)) = dec_elems::<T>(orig.take(orig.len() - n), count as nat) {
                        assert(orig.take(orig.len() - n).take(orig.take(orig.len() - n).len() - m)
                            =~= orig.take(orig.len() - (n + m)));
                    }
                }
                Ok(v)
            },
            Err(e) => Err(e),
        }
    }
}

} // verus!
