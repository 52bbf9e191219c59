use radio_bridge::mac::{
    decode, decode_beacon, decode_command, decode_header, with_fcs_placeholder, Address,
    AddressMode, Command, DecodeError, FrameType,
};

#[test]
fn scenario_short_addressed_data_frame() {
    let raw = [0x41u8, 0x88, 0x01, 0x34, 0x12, 0x78, 0x56, 0xBC, 0x9A, 0x00, 0x00];
    let f = decode(&raw).unwrap();
    assert_eq!(f.header.frame_type, FrameType::Data);
    assert!(!f.header.frame_pending);
    assert!(!f.header.ack_request);
    assert!(f.header.pan_id_compress);
    assert_eq!(f.header.sequence, 0x01);
    assert_eq!(f.header.destination, Address::Short { pan_id: 0x1234, address: 0x5678 });
    assert_eq!(f.header.source, Address::Short { pan_id: 0x1234, address: 0x9ABC });
    assert!(f.payload.is_empty());
    assert_eq!(decode_header(&raw).unwrap().1, 9);
}

#[test]
fn decode_is_deterministic() {
    let raw = [0x41u8, 0x88, 0x07, 0x34, 0x12, 0x78, 0x56, 0xBC, 0x9A, 0xAA, 0xBB, 0x00, 0x00];
    let a = decode(&raw).unwrap();
    let b = decode(&raw).unwrap();
    assert_eq!(a.header, b.header);
    assert_eq!(a.payload, b.payload);
    assert_eq!(a.payload, vec![0xAA, 0xBB]);
    let bad = [0x0Fu8, 0x00, 0x00];
    assert_eq!(decode(&bad).err(), decode(&bad).err());
}

#[test]
fn extended_addresses_without_compression() {
    let raw = [
        0x21u8, 0xCC, 0x22, 0xCD, 0xAB, 1, 2, 3, 4, 5, 6, 7, 8, 0xEF, 0xBE, 0x11, 0x12, 0x13,
        0x14, 0x15, 0x16, 0x17, 0x18, 0x99, 0x00, 0x00,
    ];
    let f = decode(&raw).unwrap();
    assert_eq!(f.header.frame_type, FrameType::Data);
    assert!(f.header.ack_request);
    assert!(!f.header.pan_id_compress);
    assert_eq!(
        f.header.destination,
        Address::Extended { pan_id: 0xABCD, extended: 0x0807060504030201 }
    );
    assert_eq!(f.header.source, Address::Extended { pan_id: 0xBEEF, extended: 0x1817161514131211 });
    assert_eq!(f.payload, vec![0x99]);
}

#[test]
fn acknowledgement_without_addresses() {
    let raw = [0x12u8, 0x00, 0x2A, 0x00, 0x00];
    let f = decode(&raw).unwrap();
    assert_eq!(f.header.frame_type, FrameType::Acknowledgement);
    assert!(f.header.frame_pending);
    assert_eq!(f.header.sequence, 0x2A);
    assert_eq!(f.header.destination, Address::Absent);
    assert_eq!(f.header.source, Address::Absent);
    assert!(f.payload.is_empty());
}

#[test]
fn decode_errors() {
    assert_eq!(decode(&[0x41, 0x88]).err(), Some(DecodeError::NotEnoughBytes));
    assert_eq!(decode(&[0x04, 0x00, 0x00, 0, 0]).err(), Some(DecodeError::InvalidFrameType));
    assert_eq!(decode(&[0x09, 0x00, 0x00, 0, 0]).err(), Some(DecodeError::SecurityNotSupported));
    assert_eq!(decode(&[0x01, 0x30, 0x00, 0, 0]).err(), Some(DecodeError::InvalidFrameVersion));
    assert_eq!(decode(&[0x01, 0x04, 0x00, 0, 0]).err(), Some(DecodeError::InvalidAddressMode));
    assert_eq!(decode(&[0x01, 0x40, 0x00, 0, 0]).err(), Some(DecodeError::InvalidAddressMode));
    assert_eq!(
        decode(&[0x41, 0x80, 0x00, 0x01, 0x02, 0, 0]).err(),
        Some(DecodeError::AddressModeNotSupported(AddressMode::Absent))
    );
    assert_eq!(
        decode(&[0x41, 0x88, 0x01, 0x34, 0x12, 0x78, 0x56, 0xBC, 0x9A, 0x00]).err(),
        Some(DecodeError::NotEnoughBytes)
    );
}

#[test]
fn fcs_placeholder_makes_capture_decodable() {
    let packet = [0x41u8, 0x88, 0x01, 0x34, 0x12, 0x78, 0x56, 0xBC, 0x9A, 0x05];
    let raw = with_fcs_placeholder(&packet);
    assert_eq!(raw.len(), packet.len() + 2);
    let f = decode(&raw).unwrap();
    assert_eq!(f.payload, vec![0x05]);
}

#[test]
fn commands_decode() {
    assert_eq!(decode_command(&[]), Ok(None));
    assert_eq!(decode_command(&[0x07]), Ok(Some(Command::BeaconRequest)));
    assert_eq!(decode_command(&[0x04]), Ok(Some(Command::DataRequest)));
    assert_eq!(
        decode_command(&[0x01, 0x8E]),
        Ok(Some(Command::AssociationRequest { capability: 0x8E }))
    );
    assert_eq!(
        decode_command(&[0x02, 0x34, 0x12, 0x00]),
        Ok(Some(Command::AssociationResponse { short_address: 0x1234, status: 0 }))
    );
    assert_eq!(
        decode_command(&[0x08, 0xCD, 0xAB, 0x00, 0x00, 0x0F, 0xFF, 0xFF]),
        Ok(Some(Command::CoordinatorRealignment {
            pan_id: 0xABCD,
            coordinator_address: 0,
            channel: 15,
            assigned_address: 0xFFFF
        }))
    );
    assert_eq!(decode_command(&[0x02, 0x34]), Err(DecodeError::NotEnoughBytes));
    assert_eq!(decode_command(&[0x30]), Err(DecodeError::InvalidValue));
}

#[test]
fn beacon_decodes_superframe_gts_and_pending() {
    let p = [
        0xFFu8, 0xCF, 0x81, 0x01, 0x34, 0x12, 0x2A, 0x11, 0x78, 0x56, 0x01, 0x02, 0x03, 0x04,
        0x05, 0x06, 0x07, 0x08, 0xAB,
    ];
    let b = decode_beacon(&p).unwrap();
    assert_eq!(b.superframe.beacon_order, 15);
    assert_eq!(b.superframe.superframe_order, 15);
    assert_eq!(b.superframe.final_cap_slot, 15);
    assert!(!b.superframe.battery_life_extension);
    assert!(b.superframe.pan_coordinator);
    assert!(b.superframe.association_permit);
    assert!(b.gts_permit);
    assert_eq!(b.gts.len(), 1);
    assert_eq!(b.gts[0].short_address, 0x1234);
    assert_eq!(b.gts[0].starting_slot, 0x0A);
    assert_eq!(b.gts[0].length, 0x02);
    assert!(b.gts[0].receive);
    assert_eq!(b.pending_short, vec![0x5678]);
    assert_eq!(b.pending_extended, vec![0x0807060504030201]);
    assert_eq!(b.payload, vec![0xAB]);
    assert_eq!(decode_beacon(&p[..17]).err(), Some(DecodeError::NotEnoughBytes));
    assert_eq!(decode_beacon(&[0x00, 0x00]).err(), Some(DecodeError::NotEnoughBytes));
    let empty = decode_beacon(&[0x00, 0x00, 0x00, 0x00]).unwrap();
    assert!(empty.gts.is_empty() && empty.pending_short.is_empty() && empty.payload.is_empty());
}
