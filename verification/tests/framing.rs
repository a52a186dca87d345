use naumi::codec::{CodecError, Convert};
use naumi::frame::FrameReceiver;
use naumi::varint::VarInt;
use naumi::Coder;

/// Drives a receiver with the given bytes one at a time, as a stream that
/// delivers short reads would.
fn feed(bytes: &[u8]) -> FrameReceiver {
    let mut receiver = FrameReceiver::new();
    for b in bytes {
        receiver = receiver.push_byte(*b);
    }
    receiver
}

#[test]
fn coder_buffers_pushed_values() {
    let mut coder = Coder::new();
    coder.push(&0u16);
    coder.push(&0u16);
    assert_eq!(coder.get_ref(), &vec![0, 0, 0, 0]);
    coder.clear();
    assert_eq!(coder.get_ref(), &Vec::<u8>::new());
}

#[test]
fn coder_decodes_in_place() {
    let mut coder = Coder::new();
    coder.push(&(7u32, 8u8));
    let buf = coder.get_mut_ref();
    let decoded = <(u32, u8)>::from_bytes(buf).unwrap();
    assert_eq!(decoded, (7, 8));
    assert!(coder.get_ref().is_empty());
}

#[test]
fn send_prefixes_length_and_clears() {
    let mut coder = Coder::new();
    coder.push(&VarInt(12121212));
    let payload_len = coder.get_ref().len();
    let mut expected = vec![payload_len as u8];
    expected.extend_from_slice(&VarInt(12121212).to_bytes_return());
    let frame = coder.send().unwrap();
    assert_eq!(frame, expected);
    assert!(coder.get_ref().is_empty());
}

#[test]
fn send_empty_payload() {
    let mut coder = Coder::new();
    let frame = coder.send().unwrap();
    assert_eq!(frame, vec![0x00]);
}

#[test]
fn receive_reconstructs_frame_from_short_reads() {
    // A payload of length 300 takes a two-byte header.
    let payload: Vec<u8> = (0..300u32).map(|i| (i % 251) as u8).collect();
    let mut coder = Coder::new();
    for b in &payload {
        coder.push(b);
    }
    let frame = coder.send().unwrap();
    assert_eq!(frame.len(), 302);
    assert_eq!(&frame[..2], &[0xAC, 0x02]);

    let receiver = feed(&frame);
    assert!(receiver.is_done());
    assert_eq!(receiver.into_payload(), payload);
}

#[test]
fn receive_round_trips_message() {
    // Frame a message, then decode the received payload back to the value.
    let message = (0x4242_4242u32, Some(9u8));
    let mut coder = Coder::new();
    coder.push(&message);
    let frame = coder.send().unwrap();

    let receiver = feed(&frame);
    assert!(receiver.is_done());
    let mut payload = receiver.into_payload();
    let decoded = <(u32, Option<u8>)>::from_bytes(&mut payload).unwrap();
    assert_eq!(decoded, message);
    assert!(payload.is_empty());
}

#[test]
fn receive_empty_frame() {
    let receiver = feed(&[0x00]);
    assert!(receiver.is_done());
    assert_eq!(receiver.into_payload(), Vec::<u8>::new());
}

#[test]
fn unterminated_header_is_invalid_data() {
    // Five bytes, every one with the continuation bit set.
    let receiver = feed(&[0xFF, 0xFF, 0xFF, 0xFF, 0xFF]);
    assert!(receiver.is_failed());
    assert!(!receiver.is_done());
}

#[test]
fn four_continuation_bytes_still_pending() {
    let receiver = feed(&[0x80, 0x80, 0x80, 0x80]);
    assert!(!receiver.is_failed());
    assert!(!receiver.is_done());
}

#[test]
fn failed_receiver_absorbs_further_bytes() {
    let mut receiver = feed(&[0xFF, 0xFF, 0xFF, 0xFF, 0xFF]);
    receiver = receiver.push_byte(0x00);
    assert!(receiver.is_failed());
}

#[test]
fn whole_value_round_trip_through_coder() {
    let mut coder = Coder::new();
    coder.push(&vec![10u16, 20u16, 30u16]);
    let buf = coder.get_mut_ref();
    let decoded = Vec::<u16>::from_bytes(buf).unwrap();
    assert_eq!(decoded, vec![10, 20, 30]);
    assert!(buf.is_empty());
}

#[test]
fn decode_error_kinds_are_distinct() {
    assert_ne!(CodecError::InvalidData, CodecError::UnexpectedEof);
}
