//! The framing protocol: one message on a stream is a forward-oriented
//! variable-length tag holding the payload's byte count, followed by exactly
//! that many payload bytes.
//!
//! Sending assembles the tag and payload into one block of bytes. Receiving
//! is a state machine fed one byte at a time, because the header's own width
//! is unknown until a byte with a clear high bit arrives: up to five header
//! bytes are consumed, then exactly the announced count of payload bytes.
//! The machine itself performs no reads; whatever delivers the bytes — a
//! blocking stream, an asynchronous one, a test — drives it and observes
//! when it is done or has failed.
use vstd::prelude::*;

use crate::varint::{lemma_pow128_bounds, lemma_varint_enc_len, pow128, varint_enc};

verus! {

/// The bytes of one frame: the payload's length as a forward-oriented tag,
/// then the payload itself.
pub open spec fn frame_bytes(payload: Seq<u8>) -> Seq<u8>
    recommends
        payload.len() <= u32::MAX,
{
    varint_enc(payload.len() as u32) + payload
}

/// The receiver's state, mathematically.
pub enum RecvModel {
    /// Scanning the header: `acc` holds the value of the groups read so far,
    /// `idx` counts them.
    Header { acc: int, idx: nat },
    /// The header announced `remaining` more payload bytes; `buf` holds those
    /// already read.
    Payload { remaining: nat, buf: Seq<u8> },
    /// A whole frame has arrived.
    Done { payload: Seq<u8> },
    /// Five header bytes came with their high bits set: the frame is
    /// malformed, and the stream is of no further use.
    Failed,
}

/// One byte moves the receiver one step. A finished or failed receiver
/// absorbs further bytes unchanged.
pub open spec fn recv_step(s: RecvModel, b: u8) -> RecvModel {
    match s {
        RecvModel::Header { acc, idx } => {
            if b < 128 {
                let value = (acc + (b % 128) * pow128(idx)) % 0x1_0000_0000;
                if value == 0 {
                    RecvModel::Done { payload: Seq::empty() }
                } else {
                    RecvModel::Payload { remaining: value as nat, buf: Seq::empty() }
                }
            } else if idx < 4 {
                RecvModel::Header { acc: acc + (b % 128) * pow128(idx), idx: idx + 1 }
            } else {
                RecvModel::Failed
            }
        },
        RecvModel::Payload { remaining, buf } => {
            if remaining <= 1 {
                RecvModel::Done { payload: buf.push(b) }
            } else {
                RecvModel::Payload { remaining: (remaining - 1) as nat, buf: buf.push(b) }
            }
        },
        RecvModel::Done { payload } => RecvModel::Done { payload },
        RecvModel::Failed => RecvModel::Failed,
    }
}

/// The receiver's state after a sequence of bytes, first byte first.
pub open spec fn recv_steps(s: RecvModel, bytes: Seq<u8>) -> RecvModel
    decreases bytes.len(),
{
    if bytes.len() == 0 {
        s
    } else {
        recv_steps(recv_step(s, bytes[0]), bytes.drop_first())
    }
}

/// Where a receiver starts: no header groups yet.
pub open spec fn initial_state() -> RecvModel {
    RecvModel::Header { acc: 0, idx: 0 }
}

/// Steps compose: feeding two byte runs one after the other is feeding
/// their concatenation.
pub proof fn lemma_recv_steps_concat(s: RecvModel, a: Seq<u8>, b: Seq<u8>)
    ensures
        recv_steps(s, a + b) == recv_steps(recv_steps(s, a), b),
    decreases a.len(),
{
    if a.len() == 0 {
        assert(a + b =~= b);
    } else {
        assert((a + b).drop_first() =~= a.drop_first() + b);
        assert((a + b)[0] == a[0]);
        lemma_recv_steps_concat(recv_step(s, a[0]), a.drop_first(), b);
    }
}

/// Feeding an encoded count to a header scan accumulates exactly that count
/// on top of the groups already read.
proof fn lemma_recv_header(v: u32, acc: int, idx: nat)
    requires
        0 <= acc,
        idx + varint_enc(v).len() <= 5,
    ensures
        ({
            let value = (acc + v * pow128(idx)) % 0x1_0000_0000;
            recv_steps(RecvModel::Header { acc, idx }, varint_enc(v)) == if value == 0 {
                RecvModel::Done { payload: Seq::empty() }
            } else {
                RecvModel::Payload { remaining: value as nat, buf: Seq::empty() }
            }
        }),
    decreases v,
{
    reveal_with_fuel(recv_steps, 3);
    let e = varint_enc(v);
    lemma_pow128_bounds(idx);
    if v < 128 {
        assert(e[0] == v as u8);
        assert(e.drop_first() =~= Seq::<u8>::empty());
        assert((v as u8) % 128 == v % 128);
        assert(v % 128 == v);
    } else {
        let b = ((v % 128) + 128) as u8;
        assert(e[0] == b);
        assert(e.drop_first() == varint_enc(v / 128));
        assert(b % 128 == v % 128);
        assert(idx < 4);
        lemma_recv_header(v / 128, acc + (v % 128) * pow128(idx), idx + 1);
        assert((v % 128) * pow128(idx) >= 0) by (nonlinear_arith)
            requires
                pow128(idx) >= 1,
        ;
        assert(acc + (v % 128) * pow128(idx) + (v / 128) * pow128(idx + 1) == acc + v * pow128(
            idx,
        )) by (nonlinear_arith)
            requires
                pow128(idx + 1) == 128 * pow128(idx),
                v == 128 * (v / 128) + (v % 128),
        ;
    }
}

/// Feeding exactly the announced count of payload bytes finishes the frame
/// with those bytes appended.
proof fn lemma_recv_payload(remaining: nat, buf: Seq<u8>, bytes: Seq<u8>)
    requires
        remaining >= 1,
        bytes.len() == remaining,
    ensures
        recv_steps(RecvModel::Payload { remaining, buf }, bytes) == (RecvModel::Done {
            payload: buf + bytes,
        }),
    decreases bytes.len(),
{
    reveal_with_fuel(recv_steps, 3);
    let b = bytes[0];
    if remaining == 1 {
        assert(bytes.drop_first() =~= Seq::<u8>::empty());
        assert(buf.push(b) =~= buf + bytes);
    } else {
        lemma_recv_payload((remaining - 1) as nat, buf.push(b), bytes.drop_first());
        assert(buf.push(b) + bytes.drop_first() =~= buf + bytes);
    }
}

/// A fresh receiver fed one whole frame, byte by byte in order, ends with
/// exactly the payload that was framed — however the bytes were split into
/// reads along the way.
pub proof fn lemma_receive_frame(payload: Seq<u8>)
    requires
        payload.len() <= u32::MAX,
    ensures
        recv_steps(initial_state(), frame_bytes(payload)) == (RecvModel::Done { payload }),
{
    let v = payload.len() as u32;
    let e = varint_enc(v);
    lemma_varint_enc_len(v);
    lemma_recv_steps_concat(initial_state(), e, payload);
    lemma_recv_header(v, 0, 0);
    assert(v * pow128(0) == v);
    assert((0 + v * pow128(0)) % 0x1_0000_0000 == v as int);
    if v == 0 {
        assert(payload =~= Seq::<u8>::empty());
    } else {
        lemma_recv_payload(v as nat, Seq::empty(), payload);
        assert(Seq::<u8>::empty() + payload =~= payload);
    }
}

/// A header of five bytes that all carry the continuation bit fails the
/// receiver: the count would not fit the five-byte bound.
pub proof fn lemma_header_overrun(bytes: Seq<u8>)
    requires
        bytes.len() == 5,
        forall|i: int| 0 <= i < 5 ==> bytes[i] >= 128,
    ensures
        recv_steps(initial_state(), bytes) == RecvModel::Failed,
{
    lemma_recv_header_overrun(0, 0, bytes);
}

/// From any header state, continuation bytes up to the bound end in failure.
proof fn lemma_recv_header_overrun(acc: int, idx: nat, bytes: Seq<u8>)
    requires
        0 <= acc,
        idx <= 4,
        bytes.len() == 5 - idx,
        forall|i: int| 0 <= i < bytes.len() ==> bytes[i] >= 128,
    ensures
        recv_steps(RecvModel::Header { acc, idx }, bytes) == RecvModel::Failed,
    decreases bytes.len(),
{
    reveal_with_fuel(recv_steps, 3);
    let b = bytes[0];
    lemma_pow128_bounds(idx);
    if idx < 4 {
        assert((b % 128) * pow128(idx) >= 0) by (nonlinear_arith)
            requires
                pow128(idx) >= 1,
        ;
        assert forall|i: int| 0 <= i < bytes.drop_first().len() implies bytes.drop_first()[i]
            >= 128 by {
            assert(bytes.drop_first()[i] == bytes[i + 1]);
        }
        lemma_recv_header_overrun(acc + (b % 128) * pow128(idx), idx + 1, bytes.drop_first());
    } else {
        assert(bytes.drop_first() =~= Seq::<u8>::empty());
    }
}

/// The receiving state machine: feed it bytes from the stream, one at a
/// time, until it reports a whole frame or a malformed header. A failed
/// receive corresponds to an invalid-data error, and the stream's position
/// is then unusable for further framed reads.
pub struct FrameReceiver {
    state: RecvState,
}

enum RecvState {
    Header { acc: u64, idx: u8 },
    Payload { remaining: u32, buf: Vec<u8> },
    Done { payload: Vec<u8> },
    Failed,
}

impl View for FrameReceiver {
    type V = RecvModel;

    closed spec fn view(&self) -> RecvModel {
        match &self.state {
            RecvState::Header { acc, idx } => RecvModel::Header {
                acc: *acc as int,
                idx: *idx as nat,
            },
            RecvState::Payload { remaining, buf } => RecvModel::Payload {
                remaining: *remaining as nat,
                buf: buf@,
            },
            RecvState::Done { payload } => RecvModel::Done { payload: payload@ },
            RecvState::Failed => RecvModel::Failed,
        }
    }
}

impl FrameReceiver {
    /// The header groups read so far stay within the five-group bound.
    #[verifier::type_invariant]
    closed spec fn wf(self) -> bool {
        match self.state {
            RecvState::Header { acc, idx } => idx <= 4 && acc < pow128(idx as nat),
            RecvState::Payload { remaining, buf } => remaining >= 1,
            _ => true,
        }
    }

    /// A receiver awaiting the first header byte.
    pub fn new() -> (r: Self)
        ensures
            r@ == initial_state(),
    {
        FrameReceiver { state: RecvState::Header { acc: 0, idx: 0 } }
    }

    /// Advances the machine by one byte from the stream.
    pub fn push_byte(self, b: u8) -> (r: Self)
        ensures
            r@ == recv_step(self@, b),
    {
        proof {
            use_type_invariant(&self);
        }
        let state = match self.state {
            RecvState::Header { acc, idx } => {
                proof {
                    lemma_pow128_bounds(idx as nat);
                    lemma_pow128_bounds((idx + 1) as nat);
                }
                let mult = pow128_exec(idx);
                if b & 0x80 == 0 {
                    assert(b < 128) by (bit_vector)
                        requires
                            b & 0x80 == 0,
                    ;
                    proof {
                        assert((b % 128) * pow128(idx as nat) <= 127 * 0x1000_0000)
                            by (nonlinear_arith)
                            requires
                                0 <= b % 128 < 128,
                                0 <= pow128(idx as nat) <= 0x1000_0000,
                        ;
                    }
                    let value = (acc + (b as u64) * mult) % 0x1_0000_0000;
                    if value == 0 {
                        RecvState::Done { payload: Vec::new() }
                    } else {
                        RecvState::Payload { remaining: value as u32, buf: Vec::new() }
                    }
                } else if idx < 4 {
                    assert(b >= 128) by (bit_vector)
                        requires
                            b & 0x80 != 0,
                    ;
                    proof {
                        assert(acc + (b % 128) * pow128(idx as nat) < pow128((idx + 1) as nat))
                            by (nonlinear_arith)
                            requires
                                0 <= acc < pow128(idx as nat),
                                0 <= b % 128 < 128,
                                pow128((idx + 1) as nat) == 128 * pow128(idx as nat),
                        ;
                    }
                    RecvState::Header { acc: acc + ((b - 128) as u64) * mult, idx: idx + 1 }
                } else {
                    assert(b >= 128) by (bit_vector)
                        requires
                            b & 0x80 != 0,
                    ;
                    RecvState::Failed
                }
            },
            RecvState::Payload { remaining, mut buf } => {
                buf.push(b);
                if remaining <= 1 {
                    RecvState::Done { payload: buf }
                } else {
                    RecvState::Payload { remaining: remaining - 1, buf }
                }
            },
            RecvState::Done { payload } => RecvState::Done { payload },
            RecvState::Failed => RecvState::Failed,
        };
        FrameReceiver { state }
    }

    /// Whether a whole frame has arrived.
    pub fn is_done(&self) -> (r: bool)
        ensures
            r == (self@ is Done),
    {
        match &self.state {
            RecvState::Done { .. } => true,
            _ => false,
        }
    }

    /// Whether the header was malformed.
    pub fn is_failed(&self) -> (r: bool)
        ensures
            r == (self@ is Failed),
    {
        match &self.state {
            RecvState::Failed => true,
            _ => false,
        }
    }

    /// Hands the received frame's payload out.
    pub fn into_payload(self) -> (r: Vec<u8>)
        requires
            self@ is Done,
        ensures
            r@ == self@->Done_payload,
    {
        match self.state {
            RecvState::Done { payload } => payload,
            _ => unreached(),
        }
    }
}

/// 128 raised to a group index, executably.
fn pow128_exec(idx: u8) -> (r: u64)
    requires
        idx <= 4,
    ensures
        r == pow128(idx as nat),
{
    proof {
        lemma_pow128_values();
    }
    if idx == 0 {
        1
    } else if idx == 1 {
        128
    } else if idx == 2 {
        0x4000
    } else if idx == 3 {
        0x20_0000
    } else {
        0x1000_0000
    }
}

/// The first five powers of 128.
proof fn lemma_pow128_values()
    ensures
        pow128(0) == 1,
        pow128(1) == 128,
        pow128(2) == 0x4000,
        pow128(3) == 0x20_0000,
        pow128(4) == 0x1000_0000,
{
    assert(pow128(0) == 1);
    assert(pow128(1) == 128);
    assert(pow128(2) == 0x4000);
    assert(pow128(3) == 0x20_0000);
    assert(pow128(4) == 0x1000_0000);
}

} // verus!
