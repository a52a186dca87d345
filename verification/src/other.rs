//! Booleans, optional values and fixed-arity tuples.
//!
//! A tuple's elements are appended in reverse positional order, so the first
//! element sits nearest the tail and is decoded first. An `Option` appends
//! its payload first and a one-byte presence flag last, so the flag is
//! decoded first.
use vstd::prelude::*;

use crate::codec::{CodecError, Convert};

verus! {

impl Convert for bool {
    open spec fn enc(&self) -> Seq<u8> {
        seq![
            if *self {
                1u8
            } else {
                0u8
            },
        ]
    }

    open spec fn dec(s: Seq<u8>) -> Result<(Self, nat), CodecError> {
        if s.len() == 0 {
            Err(CodecError::UnexpectedEof)
        } else if s.last() == 1 {
            Ok((true, 1))
        } else if s.last() == 0 {
            Ok((false, 1))
        } else {
            Err(CodecError::InvalidData)
        }
    }

    open spec fn encodable(&self) -> bool {
        true
    }

    proof fn lemma_enc_dec(&self, prefix: Seq<u8>) {
        assert((prefix + self.enc()).take(prefix.len() as int) =~= prefix);
    }

    fn to_bytes(&self, tx: &mut Vec<u8>) {
        tx.push(if *self {
            1
        } else {
            0
        });
    }

    fn to_bytes_return(&self) -> (r: Vec<u8>) {
        let mut tx: Vec<u8> = Vec::new();
        tx.push(if *self {
            1
        } else {
            0
        });
        proof {
            assert(tx@ =~= self.enc());
        }
        tx
    }

    fn from_bytes(rx: &mut Vec<u8>) -> (r: Result<Self, CodecError>) {
        match rx.pop() {
            None => Err(CodecError::UnexpectedEof),
            Some(1) => Ok(true),
            Some(0) => Ok(false),
            Some(_) => Err(CodecError::InvalidData),
        }
    }
}

impl<T: Convert> Convert for Option<T> {
    open spec fn enc(&self) -> Seq<u8> {
        match self {
            None => seq![0u8],
            Some(x) => x.enc() + seq![1u8],
        }
    }

    open spec fn dec(s: Seq<u8>) -> Result<(Option<<T as DeepView>::V>, nat), CodecError> {
        if s.len() == 0 {
            Err(CodecError::UnexpectedEof)
        } else if s.last() == 0 {
            Ok((None, 1))
        } else if s.last() == 1 {
            match T::dec(s.drop_last()) {
                Ok((x, n)) => Ok((Some(x), (n + 1) as nat)),
                Err(e) => Err(e),
            }
        } else {
            Err(CodecError::InvalidData)
        }
    }

    open spec fn encodable(&self) -> bool {
        match self {
            None => true,
            Some(x) => x.encodable(),
        }
    }

    proof fn lemma_enc_dec(&self, prefix: Seq<u8>) {
        let s = prefix + self.enc();
        match self {
            None => {
                assert(s.take(prefix.len() as int) =~= prefix);
            },
            Some(x) => {
                assert(s.drop_last() =~= prefix + x.enc());
                x.lemma_enc_dec(prefix);
            },
        }
    }

    fn to_bytes(&self, tx: &mut Vec<u8>) {
        match self {
            None => tx.push(0),
            Some(x) => {
                x.to_bytes(tx);
                tx.push(1);
                proof {
                    assert(old(tx)@ + x.enc() + seq![1u8] =~= old(tx)@ + (x.enc() + seq![1u8]));
                }
            },
        }
    }

    fn to_bytes_return(&self) -> (r: Vec<u8>) {
        let mut tx: Vec<u8> = Vec::new();
        self.to_bytes(&mut tx);
        proof {
            assert(tx@ =~= self.enc());
        }
        tx
    }

    fn from_bytes(rx: &mut Vec<u8>) -> (r: Result<Self, CodecError>) {
        let ghost orig = old(rx)@;
        let flag = match rx.pop() {
            None => {
                return Err(CodecError::UnexpectedEof);
            },
            Some(b) => b,
        };
        if flag == 0 {
            return Ok(None);
        }
        if flag != 1 {
            return Err(CodecError::InvalidData);
        }
        proof {
            assert(rx@ == orig.drop_last());
        }
        match T::from_bytes(rx) {
            Ok(x) => {
                proof {
                    if let Ok((_, n)) = T::dec(orig.drop_last()) {
                        assert(orig.drop_last().take(orig.drop_last().len() - n) =~= orig.take(
                            orig.len() - (n + 1),
                        ));
                    }
                }
                Ok(Some(x))
            },
            Err(e) => Err(e),
        }
    }
}

/// How an optional value stands in a buffer: an absent value is a single
/// `0` byte with no payload bytes; a present value is its payload's bytes
/// followed by a single `1` byte.
pub proof fn lemma_option_encoding<T: Convert>(x: Option<T>)
    ensures
        x is None ==> x.enc() == seq![0u8],
        x matches Some(v) ==> x.enc() == v.enc().push(1u8),
{
    match x {
        None => {},
        Some(v) => {
            assert(v.enc() + seq![1u8] =~= v.enc().push(1u8));
        },
    }
}

impl<A: Convert> Convert for (A,) {
    open spec fn enc(&self) -> Seq<u8> {
        self.0.enc()
    }

    open spec fn dec(s: Seq<u8>) -> Result<((<A as DeepView>::V,), nat), CodecError> {
        match A::dec(s) {
            Ok((a, n)) => Ok(((a,), n)),
            Err(e) => Err(e),
        }
    }

    open spec fn encodable(&self) -> bool {
        self.0.encodable()
    }

    proof fn lemma_enc_dec(&self, prefix: Seq<u8>) {
        self.0.lemma_enc_dec(prefix);
    }

    fn to_bytes(&self, tx: &mut Vec<u8>) {
        self.0.to_bytes(tx);
    }

    fn to_bytes_return(&self) -> (r: Vec<u8>) {
        self.0.to_bytes_return()
    }

    fn from_bytes(rx: &mut Vec<u8>) -> (r: Result<Self, CodecError>) {
        match A::from_bytes(rx) {
            Ok(a) => Ok((a,)),
            Err(e) => Err(e),
        }
    }
}

impl<A: Convert, B: Convert> Convert for (A, B) {
    open spec fn enc(&self) -> Seq<u8> {
        self.1.enc() + self.0.enc()
    }

    open spec fn dec(s: Seq<u8>) -> Result<((<A as DeepView>::V, <B as DeepView>::V), nat), CodecError> {
        match A::dec(s) {
            Ok((a, na)) => match B::dec(s.take(s.len() - na)) {
                Ok((b, nb)) => Ok(((a, b), (na + nb) as nat)),
                Err(e) => Err(e),
            },
            Err(e) => Err(e),
        }
    }

    open spec fn encodable(&self) -> bool {
        self.0.encodable() && self.1.encodable()
    }

    proof fn lemma_enc_dec(&self, prefix: Seq<u8>) {
        let s = prefix + self.enc();
        assert(s =~= (prefix + self.1.enc()) + self.0.enc());
        self.0.lemma_enc_dec(prefix + self.1.enc());
        assert(s.take(s.len() - self.0.enc().len()) =~= prefix + self.1.enc());
        self.1.lemma_enc_dec(prefix);
    }

    fn to_bytes(&self, tx: &mut Vec<u8>) {
        self.1.to_bytes(tx);
        self.0.to_bytes(tx);
        proof {
            assert(old(tx)@ + self.1.enc() + self.0.enc() =~= old(tx)@ + (self.1.enc()
                + self.0.enc()));
        }
    }

    fn to_bytes_return(&self) -> (r: Vec<u8>) {
        let mut tx: Vec<u8> = Vec::new();
        self.to_bytes(&mut tx);
        proof {
            assert(tx@ =~= self.enc());
        }
        tx
    }

    fn from_bytes(rx: &mut Vec<u8>) -> (r: Result<Self, CodecError>) {
        let ghost orig = old(rx)@;
        let a = match A::from_bytes(rx) {
            Ok(a) => a,
            Err(e) => {
                return Err(e);
            },
        };
        let b = match B::from_bytes(rx) {
            Ok(b) => b,
            Err(e) => {
                return Err(e);
            },
        };
        proof {
            if let Ok((_, na)) = A::dec(orig) {
                if let Ok((_, nb)) = B::dec(orig.take(orig.len() - na)) {
                    assert(orig.take(orig.len() - na).take(orig.take(orig.len() - na).len() - nb)
                        =~= orig.take(orig.len() - (na + nb)));
                }
            }
        }
        Ok((a, b))
    }
}

impl<A: Convert, B: Convert, C: Convert> Convert for (A, B, C) {
    open spec fn enc(&self) -> Seq<u8> {
        (self.1, self.2).enc() + self.0.enc()
    }

    open spec fn dec(s: Seq<u8>) -> Result<((<A as DeepView>::V, <B as DeepView>::V, <C as DeepView>::V), nat), CodecError> {
        match A::dec(s) {
            Ok((a, na)) => match <(B, C)>::dec(s.take(s.len() - na)) {
                Ok((rest, m)) => Ok(((a, rest.0, rest.1), (na + m) as nat)),
                Err(e) => Err(e),
            },
            Err(e) => Err(e),
        }
    }

    open spec fn encodable(&self) -> bool {
        self.0.encodable() && self.1.encodable() && self.2.encodable()
    }

    proof fn lemma_enc_dec(&self, prefix: Seq<u8>) {
        let rest = (self.1, self.2);
        let s = prefix + self.enc();
        assert(s =~= (prefix + rest.enc()) + self.0.enc());
        self.0.lemma_enc_dec(prefix + rest.enc());
        assert(s.take(s.len() - self.0.enc().len()) =~= prefix + rest.enc());
        rest.lemma_enc_dec(prefix);
    }

    fn to_bytes(&self, tx: &mut Vec<u8>) {
        self.2.to_bytes(tx);
        self.1.to_bytes(tx);
        self.0.to_bytes(tx);
        proof {
            assert(old(tx)@ + self.2.enc() + self.1.enc() + self.0.enc() =~= old(tx)@ + ((self.1,
            self.2).enc() + self.0.enc()));
        }
    }

    fn to_bytes_return(&self) -> (r: Vec<u8>) {
        let mut tx: Vec<u8> = Vec::new();
        self.to_bytes(&mut tx);
        proof {
            assert(tx@ =~= self.enc());
        }
        tx
    }

    fn from_bytes(rx: &mut Vec<u8>) -> (r: Result<Self, CodecError>) {
        let ghost orig = old(rx)@;
        let a = match A::from_bytes(rx) {
            Ok(a) => a,
            Err(e) => {
                return Err(e);
            },
        };
        let rest = match <(B, C)>::from_bytes(rx) {
            Ok(rest) => rest,
            Err(e) => {
                return Err(e);
            },
        };
        proof {
            if let Ok((_, na)) = A::dec(orig) {
                if let Ok((_, m)) = <(B, C)>::dec(orig.take(orig.len() - na)) {
                    assert(orig.take(orig.len() - na).take(orig.take(orig.len() - na).len() - m)
                        =~= orig.take(orig.len() - (na + m)));
                }
            }
        }
        Ok((a, rest.0, rest.1))
    }
}

impl<A: Convert, B: Convert, C: Convert, D: Convert> Convert for (A, B, C, D) {
    open spec fn enc(&self) -> Seq<u8> {
        (self.1, self.2, self.3).enc() + self.0.enc()
    }

    open spec fn dec(s: Seq<u8>) -> Result<((<A as DeepView>::V, <B as DeepView>::V, <C as DeepView>::V, <D as DeepView>::V), nat), CodecError> {
        match A::dec(s) {
            Ok((a, na)) => match <(B, C, D)>::dec(s.take(s.len() - na)) {
                Ok((rest, m)) => Ok(((a, rest.0, rest.1, rest.2), (na + m) as nat)),
                Err(e) => Err(e),
            },
            Err(e) => Err(e),
        }
    }

    open spec fn encodable(&self) -> bool {
        self.0.encodable() && self.1.encodable() && self.2.encodable() && self.3.encodable()
    }

    proof fn lemma_enc_dec(&self, prefix: Seq<u8>) {
        let rest = (self.1, self.2, self.3);
        let s = prefix + self.enc();
        assert(s =~= (prefix + rest.enc()) + self.0.enc());
        self.0.lemma_enc_dec(prefix + rest.enc());
        assert(s.take(s.len() - self.0.enc().len()) =~= prefix + rest.enc());
        rest.lemma_enc_dec(prefix);
    }

    fn to_bytes(&self, tx: &mut Vec<u8>) {
        self.3.to_bytes(tx);
        self.2.to_bytes(tx);
        self.1.to_bytes(tx);
        self.0.to_bytes(tx);
        proof {
            assert(old(tx)@ + self.3.enc() + self.2.enc() + self.1.enc() + self.0.enc() =~= old(
                tx,
            )@ + ((self.1, self.2, self.3).enc() + self.0.enc()));
        }
    }

    fn to_bytes_return(&self) -> (r: Vec<u8>) {
        let mut tx: Vec<u8> = Vec::new();
        self.to_bytes(&mut tx);
        proof {
            assert(tx@ =~= self.enc());
        }
        tx
    }

    fn from_bytes(rx: &mut Vec<u8>) -> (r: Result<Self, CodecError>) {
        let ghost orig = old(rx)@;
        let a = match A::from_bytes(rx) {
            Ok(a) => a,
            Err(e) => {
                return Err(e);
            },
        };
        let rest = match <(B, C, D)>::from_bytes(rx) {
            Ok(rest) => rest,
            Err(e) => {
                return Err(e);
            },
        };
        proof {
            if let Ok((_, na)) = A::dec(orig) {
                if let Ok((_, m)) = <(B, C, D)>::dec(orig.take(orig.len() - na)) {
                    assert(orig.take(orig.len() - na).take(orig.take(orig.len() - na).len() - m)
                        =~= orig.take(orig.len() - (na + m)));
                }
            }
        }
        Ok((a, rest.0, rest.1, rest.2))
    }
}

impl<A: Convert, B: Convert, C: Convert, D: Convert, E: Convert> Convert for (A, B, C, D, E) {
    open spec fn enc(&self) -> Seq<u8> {
        (self.1, self.2, self.3, self.4).enc() + self.0.enc()
    }

    open spec fn dec(s: Seq<u8>) -> Result<((<A as DeepView>::V, <B as DeepView>::V, <C as DeepView>::V, <D as DeepView>::V, <E as DeepView>::V), nat), CodecError> {
        match A::dec(s) {
            Ok((a, na)) => match <(B, C, D, E)>::dec(s.take(s.len() - na)) {
                Ok((rest, m)) => Ok(((a, rest.0, rest.1, rest.2, rest.3), (na + m) as nat)),
                Err(e) => Err(e),
            },
            Err(e) => Err(e),
        }
    }

    open spec fn encodable(&self) -> bool {
        self.0.encodable() && self.1.encodable() && self.2.encodable() && self.3.encodable()
            && self.4.encodable()
    }

    proof fn lemma_enc_dec(&self, prefix: Seq<u8>) {
        let rest = (self.1, self.2, self.3, self.4);
        let s = prefix + self.enc();
        assert(s =~= (prefix + rest.enc()) + self.0.enc());
        self.0.lemma_enc_dec(prefix + rest.enc());
        assert(s.take(s.len() - self.0.enc().len()) =~= prefix + rest.enc());
        rest.lemma_enc_dec(prefix);
    }

    fn to_bytes(&self, tx: &mut Vec<u8>) {
        self.4.to_bytes(tx);
        self.3.to_bytes(tx);
        self.2.to_bytes(tx);
        self.1.to_bytes(tx);
        self.0.to_bytes(tx);
        proof {
            assert(old(tx)@ + self.4.enc() + self.3.enc() + self.2.enc() + self.1.enc()
                + self.0.enc() =~= old(tx)@ + ((self.1, self.2, self.3, self.4).enc()
                + self.0.enc()));
        }
    }

    fn to_bytes_return(&self) -> (r: Vec<u8>) {
        let mut tx: Vec<u8> = Vec::new();
        self.to_bytes(&mut tx);
        proof {
            assert(tx@ =~= self.enc());
        }
        tx
    }

    fn from_bytes(rx: &mut Vec<u8>) -> (r: Result<Self, CodecError>) {
        let ghost orig = old(rx)@;
        let a = match A::from_bytes(rx) {
            Ok(a) => a,
            Err(e) => {
                return Err(e);
            },
        };
        let rest = match <(B, C, D, E)>::from_bytes(rx) {
            Ok(rest) => rest,
            Err(e) => {
                return Err(e);
            },
        };
        proof {
            if let Ok((_, na)) = A::dec(orig) {
                if let Ok((_, m)) = <(B, C, D, E)>::dec(orig.take(orig.len() - na)) {
                    assert(orig.take(orig.len() - na).take(orig.take(orig.len() - na).len() - m)
                        =~= orig.take(orig.len() - (na + m)));
                }
            }
        }
        Ok((a, rest.0, rest.1, rest.2, rest.3))
    }
}

impl<A: Convert, B: Convert, C: Convert, D: Convert, E: Convert, F: Convert> Convert for (
    A,
    B,
    C,
    D,
    E,
    F,
) {
    open spec fn enc(&self) -> Seq<u8> {
        (self.1, self.2, self.3, self.4, self.5).enc() + self.0.enc()
    }

    open spec fn dec(s: Seq<u8>) -> Result<((<A as DeepView>::V, <B as DeepView>::V, <C as DeepView>::V, <D as DeepView>::V, <E as DeepView>::V, <F as DeepView>::V), nat), CodecError> {
        match A::dec(s) {
            Ok((a, na)) => match <(B, C, D, E, F)>::dec(s.take(s.len() - na)) {
                Ok((rest, m)) => Ok(
                    ((a, rest.0, rest.1, rest.2, rest.3, rest.4), (na + m) as nat),
                ),
                Err(e) => Err(e),
            },
            Err(e) => Err(e),
        }
    }

    open spec fn encodable(&self) -> bool {
        self.0.encodable() && self.1.encodable() && self.2.encodable() && self.3.encodable()
            && self.4.encodable() && self.5.encodable()
    }

    proof fn lemma_enc_dec(&self, prefix: Seq<u8>) {
        let rest = (self.1, self.2, self.3, self.4, self.5);
        let s = prefix + self.enc();
        assert(s =~= (prefix + rest.enc()) + self.0.enc());
        self.0.lemma_enc_dec(prefix + rest.enc());
        assert(s.take(s.len() - self.0.enc().len()) =~= prefix + rest.enc());
        rest.lemma_enc_dec(prefix);
    }

    fn to_bytes(&self, tx: &mut Vec<u8>) {
        self.5.to_bytes(tx);
        self.4.to_bytes(tx);
        self.3.to_bytes(tx);
        self.2.to_bytes(tx);
        self.1.to_bytes(tx);
        self.0.to_bytes(tx);
        proof {
            assert(old(tx)@ + self.5.enc() + self.4.enc() + self.3.enc() + self.2.enc()
                + self.1.enc() + self.0.enc() =~= old(tx)@ + ((
            self.1,
            self.2,
            self.3,
            self.4,
            self.5,
            ).enc() + self.0.enc()));
        }
    }

    fn to_bytes_return(&self) -> (r: Vec<u8>) {
        let mut tx: Vec<u8> = Vec::new();
        self.to_bytes(&mut tx);
        proof {
            assert(tx@ =~= self.enc());
        }
        tx
    }

    fn from_bytes(rx: &mut Vec<u8>) -> (r: Result<Self, CodecError>) {
        let ghost orig = old(rx)@;
        let a = match A::from_bytes(rx) {
            Ok(a) => a,
            Err(e) => {
                return Err(e);
            },
        };
        let rest = match <(B, C, D, E, F)>::from_bytes(rx) {
            Ok(rest) => rest,
            Err(e) => {
                return Err(e);
            },
        };
        proof {
            if let Ok((_, na)) = A::dec(orig) {
                if let Ok((_, m)) = <(B, C, D, E, F)>::dec(orig.take(orig.len() - na)) {
                    assert(orig.take(orig.len() - na).take(orig.take(orig.len() - na).len() - m)
                        =~= orig.take(orig.len() - (na + m)));
                }
            }
        }
        Ok((a, rest.0, rest.1, rest.2, rest.3, rest.4))
    }
}

} // verus!
