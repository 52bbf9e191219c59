use radio_bridge::codec::{
    decode, encode, energy_reading, split_radio_receive, Error, MessageType,
};
use radio_bridge::stream::{Stream, StreamError};

fn framed(t: MessageType, payload: &[u8]) -> Vec<u8> {
    let mut out = vec![0u8; 512];
    let n = encode(t, payload, &mut out).unwrap();
    out.truncate(n);
    out
}

#[test]
fn round_trip_radio_receive() {
    let payload = [0x10u8, 0x7e, 0x7f, 0x7d, 0x00, 0xff];
    let frame = framed(MessageType::RadioReceive, &payload);
    let mut out = vec![0u8; 64];
    let (t, used, written) = decode(&frame, &mut out).unwrap();
    assert_eq!(t, MessageType::RadioReceive);
    assert_eq!(used, frame.len());
    assert_eq!(written, payload.len());
    assert_eq!(&out[..written], &payload[..]);
}

#[test]
fn round_trip_other_type_and_escaped_tag() {
    let payload = [1u8, 2, 3];
    let frame = framed(MessageType::Other(0x7e), &payload);
    let mut out = vec![0u8; 3];
    let (t, used, written) = decode(&frame, &mut out).unwrap();
    assert_eq!(t, MessageType::Other(0x7e));
    assert_eq!(used, frame.len());
    assert_eq!(&out[..written], &payload[..]);
}

#[test]
fn encode_exact_bytes() {
    let frame = framed(MessageType::RadioReceive, &[0x7e, 0x41]);
    assert_eq!(frame, vec![0x7e, 0x01, 0x7d, 0x5e, 0x41, 0x7f]);
    let frame = framed(MessageType::EnergyDetect, &[]);
    assert_eq!(frame, vec![0x7e, 0x02, 0x7f]);
}

#[test]
fn encode_not_enough_space() {
    let mut out = vec![0u8; 5];
    assert_eq!(encode(MessageType::RadioReceive, &[1, 2, 3], &mut out), Err(Error::NotEnoughSpace));
    let mut out = vec![0u8; 5];
    assert_eq!(encode(MessageType::RadioReceive, &[1, 2], &mut out), Ok(5));
    let mut out = vec![0u8; 5];
    assert_eq!(encode(MessageType::RadioReceive, &[1, 0x7f], &mut out), Err(Error::NotEnoughSpace));
}

#[test]
fn scenario_radio_receive_with_link_quality() {
    let payload = [0xDEu8, 0xAD, 0xBE, 0xEF, 0x37];
    let frame = framed(MessageType::RadioReceive, &payload);
    let mut out = vec![0u8; 256];
    let (t, used, written) = decode(&frame, &mut out).unwrap();
    assert_eq!(t, MessageType::RadioReceive);
    assert_eq!(used, frame.len());
    let rp = split_radio_receive(&out[..written]).unwrap();
    assert_eq!(rp.packet, vec![0xDE, 0xAD, 0xBE, 0xEF]);
    assert_eq!(rp.link_quality, 0x37);

    let mut stream = Stream::new(256);
    let msgs = stream.push(&frame).unwrap();
    assert_eq!(msgs.len(), 1);
    assert_eq!(msgs[0].kind, MessageType::RadioReceive);
    assert_eq!(msgs[0].payload, payload.to_vec());
    assert_eq!(stream.len(), 0);
}

#[test]
fn scenario_truncated_frame_resyncs() {
    // A frame cut short by a new start sentinel: its bytes run out before
    // its end, and the codec asks to discard exactly the broken part.
    let good = framed(MessageType::EnergyDetect, &[11, 0x50]);
    let mut input = vec![0x7e, 0x01, 0xAA, 0xBB];
    input.extend_from_slice(&good);
    let mut out = vec![0u8; 64];
    assert_eq!(decode(&input, &mut out), Err(Error::InvalidLength(4)));
    let (t, used, written) = decode(&input[4..], &mut out).unwrap();
    assert_eq!(t, MessageType::EnergyDetect);
    assert_eq!(used, good.len());
    assert_eq!(energy_reading(&out[..written]), Some((11, 0x50)));

    let mut stream = Stream::new(64);
    let msgs = stream.push(&input).unwrap();
    assert_eq!(msgs.len(), 1);
    assert_eq!(msgs[0].kind, MessageType::EnergyDetect);
    assert_eq!(msgs[0].payload, vec![11, 0x50]);
    assert_eq!(stream.len(), 0);
}

#[test]
fn decode_end_not_found_and_garbage() {
    let mut out = vec![0u8; 16];
    assert_eq!(decode(&[], &mut out), Err(Error::EndNotFound));
    assert_eq!(decode(&[0x7e, 0x01, 0x02], &mut out), Err(Error::EndNotFound));
    assert_eq!(decode(&[0x00, 0x13, 0x7e, 0x01], &mut out), Err(Error::InvalidLength(2)));
    assert_eq!(decode(&[0x00, 0x13, 0x14], &mut out), Err(Error::InvalidLength(3)));
    // An empty body, a dangling escape, an escape of a plain byte.
    assert_eq!(decode(&[0x7e, 0x7f, 0x00], &mut out), Err(Error::InvalidLength(2)));
    assert_eq!(decode(&[0x7e, 0x01, 0x7d, 0x7f], &mut out), Err(Error::InvalidLength(4)));
    assert_eq!(decode(&[0x7e, 0x01, 0x7d, 0x41, 0x7f], &mut out), Err(Error::InvalidLength(5)));
}

#[test]
fn decode_payload_over_capacity_is_dropped() {
    let frame = framed(MessageType::RadioReceive, &[1, 2, 3, 4]);
    let mut out = vec![0u8; 3];
    assert_eq!(decode(&frame, &mut out), Err(Error::InvalidLength(frame.len())));
    let mut out = vec![0u8; 4];
    assert_eq!(decode(&frame, &mut out), Ok((MessageType::RadioReceive, frame.len(), 4)));
}

#[test]
fn message_type_tags() {
    assert_eq!(MessageType::from_tag(1), MessageType::RadioReceive);
    assert_eq!(MessageType::from_tag(2), MessageType::EnergyDetect);
    assert_eq!(MessageType::from_tag(9), MessageType::Other(9));
    assert_eq!(MessageType::EnergyDetect.tag(), 2);
    assert_eq!(MessageType::Other(0x33).tag(), 0x33);
}

#[test]
fn energy_and_radio_helpers() {
    assert_eq!(energy_reading(&[1]), None);
    assert_eq!(energy_reading(&[1, 2, 3]), None);
    assert_eq!(energy_reading(&[15, 200]), Some((15, 200)));
    assert!(split_radio_receive(&[]).is_none());
    let rp = split_radio_receive(&[0x44]).unwrap();
    assert!(rp.packet.is_empty());
    assert_eq!(rp.link_quality, 0x44);
}

#[test]
fn stream_frames_split_across_chunks() {
    let a = framed(MessageType::RadioReceive, &[1, 2, 0x7e, 9]);
    let b = framed(MessageType::Other(5), &[7]);
    let mut all = a.clone();
    all.extend_from_slice(&b);
    let mut stream = Stream::new(64);
    let msgs = stream.push(&all[..3]).unwrap();
    assert!(msgs.is_empty());
    assert_eq!(stream.len(), 3);
    let msgs = stream.push(&all[3..]).unwrap();
    assert_eq!(msgs.len(), 2);
    assert_eq!(msgs[0].kind, MessageType::RadioReceive);
    assert_eq!(msgs[0].payload, vec![1, 2, 0x7e, 9]);
    assert_eq!(msgs[1].kind, MessageType::Other(5));
    assert_eq!(msgs[1].payload, vec![7]);
    assert_eq!(stream.len(), 0);
}

#[test]
fn stream_corrupted_input_drains_without_new_input() {
    let good = framed(MessageType::RadioReceive, &[3, 4, 5]);
    let mut input = vec![0x01, 0x02, 0x7f, 0x7e, 0x7e, 0x01, 0x7d, 0x00, 0x7f, 0x55];
    input.extend_from_slice(&good);
    let mut stream = Stream::new(128);
    let msgs = stream.push(&input).unwrap();
    assert_eq!(msgs.len(), 1);
    assert_eq!(msgs[0].payload, vec![3, 4, 5]);
    assert_eq!(stream.len(), 0);
}

#[test]
fn stream_delivers_empty_payload_frame_and_keeps_partial_tail() {
    let mut stream = Stream::new(16);
    let msgs = stream.push(&[0x7e, 0x02, 0x7f]).unwrap();
    assert_eq!(msgs.len(), 1);
    assert_eq!(msgs[0].kind, MessageType::EnergyDetect);
    assert!(msgs[0].payload.is_empty());
    assert_eq!(stream.len(), 0);
    let mut stream = Stream::new(16);
    let msgs = stream.push(&[0x7e, 0x01, 0x05]).unwrap();
    assert!(msgs.is_empty());
    assert_eq!(stream.len(), 3);
}

#[test]
fn stream_tag_only_noise_does_not_block_later_frames() {
    let good = framed(MessageType::RadioReceive, &[9, 8, 0x30]);
    let mut input = vec![0x7e, 0x05, 0x7f];
    input.extend_from_slice(&good);
    let mut stream = Stream::new(16);
    let msgs = stream.push(&input).unwrap();
    assert_eq!(msgs.len(), 2);
    assert_eq!(msgs[0].kind, MessageType::Other(5));
    assert!(msgs[0].payload.is_empty());
    assert_eq!(msgs[1].kind, MessageType::RadioReceive);
    assert_eq!(msgs[1].payload, vec![9, 8, 0x30]);
    assert_eq!(stream.len(), 0);
    // The buffer is free again for the next reads.
    for _ in 0..10 {
        let msgs = stream.push(&[0x7e, 0x05, 0x7f]).unwrap();
        assert_eq!(msgs.len(), 1);
    }
}

#[test]
fn encode_refuses_reserved_other_tags() {
    let mut out = vec![0u8; 32];
    assert_eq!(encode(MessageType::Other(1), &[1], &mut out), Err(Error::ReservedTag));
    assert_eq!(encode(MessageType::Other(2), &[], &mut out), Err(Error::ReservedTag));
    let mut tiny = vec![0u8; 1];
    assert_eq!(encode(MessageType::Other(2), &[], &mut tiny), Err(Error::ReservedTag));
    assert_eq!(encode(MessageType::Other(3), &[], &mut out), Ok(3));
}

#[test]
fn round_trip_empty_payload() {
    let frame = framed(MessageType::EnergyDetect, &[]);
    let mut out = vec![0u8; 4];
    assert_eq!(decode(&frame, &mut out), Ok((MessageType::EnergyDetect, 3, 0)));
}

#[test]
fn stream_buffer_full_is_reported() {
    let mut stream = Stream::new(4);
    assert_eq!(stream.capacity(), 4);
    assert_eq!(stream.push(&[0x7e, 1, 2]).map(|m| m.len()), Ok(0));
    assert_eq!(stream.push(&[3, 4]).map(|m| m.len()), Err(StreamError::BufferFull));
    assert_eq!(stream.len(), 3);
}
