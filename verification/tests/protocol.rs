use diode::protocol::{new_client_id, Block, BlockType, Error, Packet, Parameter, RaptorQ};

#[test]
fn default_parameters() {
    let fec = RaptorQ::new(1500, 734928, 2).unwrap();
    assert_eq!(fec.max_packet_size(), 1464);
    assert_eq!(fec.min_nb_packets(), 502);
    assert_eq!(fec.block_size(), 734928);
    assert_eq!(fec.nb_repair_packets(), 10);
    assert_eq!(fec.nb_packets(), 512);
    assert_eq!(Block::max_data_len(&fec), 734919);
}

#[test]
fn packet_size_is_rounded_down_to_the_alignment() {
    let fec = RaptorQ::new(1499, 10000, 0).unwrap();
    assert_eq!(fec.max_packet_size(), 1464);
    let fec = RaptorQ::new(1507, 10000, 0).unwrap();
    assert_eq!(fec.max_packet_size(), 1472);
    assert_eq!(fec.min_nb_packets(), 6);
    assert_eq!(fec.block_size(), 8832);
    assert_eq!(fec.nb_repair_packets(), 0);
}

#[test]
fn repair_packets_fill_the_percentage_of_the_block() {
    // 19 packets of 8 bytes: half of 152 bytes is 76, which holds 9 packets
    let fec = RaptorQ::new(40, 152, 50).unwrap();
    assert_eq!(fec.max_packet_size(), 8);
    assert_eq!(fec.min_nb_packets(), 19);
    assert_eq!(fec.nb_repair_packets(), 9);
    assert_eq!(fec.nb_packets(), 28);
    let fec = RaptorQ::new(1500, 14640, 100).unwrap();
    assert_eq!(fec.nb_repair_packets(), 10);
    let fec = RaptorQ::new(1500, 14640, 19).unwrap();
    assert_eq!(fec.nb_repair_packets(), 1);
    let fec = RaptorQ::new(1500, 14640, 9).unwrap();
    assert_eq!(fec.nb_repair_packets(), 0);
    let fec = RaptorQ::new(1500, 14640, 447_000).unwrap();
    assert_eq!(fec.nb_repair_packets(), 44_700);
}

#[test]
fn mtu_too_small_is_refused() {
    assert!(matches!(
        RaptorQ::new(39, 1000, 2),
        Err(Error::InvalidParameter(Parameter::Mtu))
    ));
    assert!(matches!(
        RaptorQ::new(0, 1000, 2),
        Err(Error::InvalidParameter(Parameter::Mtu))
    ));
    assert!(RaptorQ::new(40, 1000, 2).is_ok());
}

#[test]
fn block_size_without_symbol_is_refused() {
    assert!(matches!(
        RaptorQ::new(1500, 1463, 2),
        Err(Error::InvalidParameter(Parameter::BlockSize))
    ));
    assert!(RaptorQ::new(1500, 1464, 2).is_ok());
}

#[test]
fn too_many_symbols_are_refused() {
    assert!(matches!(
        RaptorQ::new(40, 8 * 56404, 0),
        Err(Error::InvalidParameter(Parameter::BlockSize))
    ));
    assert!(matches!(
        RaptorQ::new(40, u32::MAX, 0),
        Err(Error::InvalidParameter(Parameter::BlockSize))
    ));
}

#[test]
fn too_many_repair_packets_are_refused() {
    assert!(matches!(
        RaptorQ::new(1500, 734928, 4_000_000_000),
        Err(Error::InvalidParameter(Parameter::RepairPercentage))
    ));
}

#[test]
fn block_type_bytes() {
    assert_eq!(BlockType::Heartbeat.serialized(), 0);
    assert_eq!(BlockType::Start.serialized(), 1);
    assert_eq!(BlockType::Data.serialized(), 2);
    assert_eq!(BlockType::Abort.serialized(), 3);
    assert_eq!(BlockType::End.serialized(), 4);
    assert_eq!(BlockType::Abort.name(), "Abort");
}

#[test]
fn block_layout() {
    let fec = RaptorQ::new(1500, 2928, 0).unwrap();
    let block = Block::new(BlockType::Data, &fec, 0x0403_0201, Some(&[0xAA, 0xBB, 0xCC])).unwrap();
    let bytes = block.serialized();
    assert_eq!(bytes.len(), 2928);
    assert_eq!(&bytes[..12], &[1, 2, 3, 4, 2, 3, 0, 0, 0, 0xAA, 0xBB, 0xCC]);
    assert!(bytes[12..].iter().all(|b| *b == 0));
}

#[test]
fn block_round_trip_for_every_kind() {
    let fec = RaptorQ::new(1500, 2928, 0).unwrap();
    let kinds = [
        (BlockType::Heartbeat, 0u32),
        (BlockType::Start, 7),
        (BlockType::Data, 0xDEAD_BEEF),
        (BlockType::Abort, u32::MAX),
        (BlockType::End, 1),
    ];
    for (kind, client_id) in kinds {
        let block = Block::new(kind, &fec, client_id, None).unwrap();
        let parsed = Block::deserialize(block.serialized().to_vec());
        assert!(parsed.is_well_formed());
        assert_eq!(parsed.client_id(), client_id);
        assert_eq!(parsed.block_type(), Ok(kind));
        assert_eq!(parsed.payload_len(), 0);
        assert!(parsed.payload().is_empty());
    }
}

#[test]
fn data_block_round_trip_up_to_the_largest_payload() {
    let fec = RaptorQ::new(1500, 2928, 0).unwrap();
    let max = Block::max_data_len(&fec);
    assert_eq!(max, 2919);
    for len in [0usize, 1, 255, 256, max - 1, max] {
        let payload: Vec<u8> = (0..len).map(|i| (i % 251) as u8).collect();
        let block = Block::new(BlockType::Data, &fec, 42, Some(&payload)).unwrap();
        let parsed = Block::deserialize(block.serialized().to_vec());
        assert_eq!(parsed.client_id(), 42);
        assert_eq!(parsed.block_type(), Ok(BlockType::Data));
        assert_eq!(parsed.payload_len() as usize, len);
        assert_eq!(parsed.payload(), &payload[..]);
    }
}

#[test]
fn payload_too_long_is_refused() {
    let fec = RaptorQ::new(1500, 2928, 0).unwrap();
    let payload = vec![1u8; 2920];
    assert!(matches!(
        Block::new(BlockType::Data, &fec, 1, Some(&payload)),
        Err(Error::InvalidParameter(Parameter::Payload))
    ));
}

#[test]
fn payload_on_a_block_that_carries_none_is_refused() {
    let fec = RaptorQ::new(1500, 2928, 0).unwrap();
    assert!(matches!(
        Block::new(BlockType::End, &fec, 1, Some(&[1u8])),
        Err(Error::InvalidParameter(Parameter::Payload))
    ));
    assert!(Block::new(BlockType::End, &fec, 1, Some(&[])).is_ok());
}

#[test]
fn heartbeat_with_a_client_is_refused() {
    let fec = RaptorQ::new(1500, 2928, 0).unwrap();
    assert!(matches!(
        Block::new(BlockType::Heartbeat, &fec, 1, None),
        Err(Error::InvalidParameter(Parameter::ClientId))
    ));
}

#[test]
fn block_without_room_for_the_header_is_refused() {
    let fec = RaptorQ::new(40, 8, 0).unwrap();
    assert_eq!(fec.block_size(), 8);
    assert_eq!(Block::max_data_len(&fec), 0);
    assert!(matches!(
        Block::new(BlockType::Start, &fec, 1, None),
        Err(Error::InvalidParameter(Parameter::BlockLength))
    ));
}

#[test]
fn unknown_block_kind() {
    let mut bytes = vec![0u8; 16];
    bytes[4] = 5;
    assert_eq!(
        Block::deserialize(bytes).block_type(),
        Err(Error::InvalidBlockType(Some(5)))
    );
    assert_eq!(
        Block::deserialize(vec![0u8; 4]).block_type(),
        Err(Error::InvalidBlockType(None))
    );
}

#[test]
fn malformed_blocks_are_told_apart() {
    assert!(!Block::deserialize(vec![0u8; 8]).is_well_formed());
    let mut bytes = vec![0u8; 16];
    bytes[5] = 8;
    assert!(!Block::deserialize(bytes.clone()).is_well_formed());
    bytes[5] = 7;
    assert!(Block::deserialize(bytes).is_well_formed());
}

#[test]
fn client_ids_count_up_and_go_round() {
    let mut counter = 0u32;
    assert_eq!(new_client_id(&mut counter), 0);
    assert_eq!(new_client_id(&mut counter), 1);
    assert_eq!(counter, 2);
    counter = u32::MAX;
    assert_eq!(new_client_id(&mut counter), u32::MAX);
    assert_eq!(counter, 0);
}

#[test]
fn short_datagram_is_no_packet() {
    assert!(Packet::deserialize(vec![1, 2, 3]).is_none());
    let packet = Packet::deserialize(vec![9, 0, 0, 1]).unwrap();
    assert_eq!(packet.block_id(), 9);
    assert_eq!(packet.symbol_id(), 1);
    assert_eq!(Packet::deserialize(vec![9, 1, 2, 3]).unwrap().symbol_id(), 66051);
    assert_eq!(packet.len(), 4);
    assert_eq!(packet.serialize(), &[9, 0, 0, 1]);
}

#[test]
fn encode_gives_source_and_repair_packets() {
    let fec = RaptorQ::new(1500, 2928, 50).unwrap();
    assert_eq!(fec.min_nb_packets(), 2);
    assert_eq!(fec.nb_repair_packets(), 1);
    let fec = RaptorQ::new(1500, 14640, 20).unwrap();
    assert_eq!(fec.min_nb_packets(), 10);
    assert_eq!(fec.nb_repair_packets(), 2);
    let block = Block::new(BlockType::Data, &fec, 3, Some(&[5u8; 100])).unwrap();
    let packets = fec.encode(17, block.serialized());
    assert_eq!(packets.len(), 12);
    for packet in &packets {
        assert_eq!(packet.len(), 4 + 1464);
        assert_eq!(packet.block_id(), 17);
    }
    let symbols: Vec<u32> = packets.iter().map(|p| p.symbol_id()).collect();
    assert_eq!(symbols, vec![0, 1, 2, 3, 4, 5, 6, 7, 8, 9, 10 + 1464, 11 + 1464]);
    assert_eq!(&packets[10].serialize()[..4], &[17, 0, 5, 194]);
    assert_eq!(&packets[11].serialize()[..4], &[17, 0, 5, 195]);
}

#[test]
fn source_packets_carry_the_block_in_order() {
    let fec = RaptorQ::new(1500, 14640, 20).unwrap();
    let payload: Vec<u8> = (0..14631u32).map(|i| (i % 241) as u8).collect();
    let block = Block::new(BlockType::Data, &fec, 3, Some(&payload)).unwrap();
    let packets = fec.encode(0, block.serialized());
    let mut carried = Vec::new();
    for packet in &packets[..10] {
        carried.extend_from_slice(&packet.serialize()[4..]);
    }
    assert_eq!(&carried[..], block.serialized());
}

#[test]
fn decode_gives_the_block_back() {
    let fec = RaptorQ::new(1500, 14640, 20).unwrap();
    let payload: Vec<u8> = (0..5000).map(|i| (i % 253) as u8).collect();
    let block = Block::new(BlockType::Data, &fec, 3, Some(&payload)).unwrap();
    let packets = fec.encode(200, block.serialized());
    let decoded = fec.decode(200, packets).unwrap();
    assert_eq!(&decoded[..], block.serialized());
}

#[test]
fn decode_repairs_a_lost_packet() {
    let fec = RaptorQ::new(1500, 14640, 20).unwrap();
    let payload: Vec<u8> = (0..14000).map(|i| (i % 249) as u8).collect();
    let block = Block::new(BlockType::Data, &fec, 3, Some(&payload)).unwrap();
    let mut packets = fec.encode(1, block.serialized());
    packets.remove(4);
    packets.remove(7);
    assert_eq!(packets.len(), 10);
    let decoded = fec.decode(1, packets).unwrap();
    assert_eq!(&decoded[..], block.serialized());
}

#[test]
fn decode_fails_on_too_few_packets() {
    let fec = RaptorQ::new(1500, 14640, 20).unwrap();
    let block = Block::new(BlockType::Data, &fec, 3, Some(&[1u8; 10])).unwrap();
    let mut packets = fec.encode(1, block.serialized());
    packets.truncate(9);
    assert!(fec.decode(1, packets).is_none());
}

#[test]
fn decode_refuses_packets_of_another_block_or_length() {
    let fec = RaptorQ::new(1500, 14640, 20).unwrap();
    let block = Block::new(BlockType::Data, &fec, 3, Some(&[1u8; 10])).unwrap();
    let packets = fec.encode(1, block.serialized());
    assert!(!fec.check_packets(2, &packets));
    assert!(fec.check_packets(1, &packets));
    assert!(fec.decode(2, packets).is_none());
    let mut packets = fec.encode(1, block.serialized());
    packets.push(Packet::deserialize(vec![1, 0, 0, 99, 7]).unwrap());
    assert!(fec.decode(1, packets).is_none());
}

#[test]
fn symbol_numbers_are_those_of_the_encoder() {
    let fec = RaptorQ::new(1500, 14640, 20).unwrap();
    assert_eq!(fec.min_nb_packets(), 10);
    assert_eq!(fec.nb_repair_packets(), 2);
    assert!(fec.is_symbol_number(0));
    assert!(fec.is_symbol_number(9));
    assert!(!fec.is_symbol_number(10));
    assert!(!fec.is_symbol_number(1473));
    assert!(fec.is_symbol_number(1474));
    assert!(fec.is_symbol_number(1475));
    assert!(!fec.is_symbol_number(1476));
    assert!(!fec.is_symbol_number(3_158_229));
    assert!(!fec.is_symbol_number(u32::MAX));
}

#[test]
fn decode_refuses_a_symbol_number_that_the_encoder_does_not_give() {
    let fec = RaptorQ::new(1500, 14640, 20).unwrap();
    let block = Block::new(BlockType::Data, &fec, 3, Some(&[1u8; 10])).unwrap();
    let mut packets = fec.encode(1, block.serialized());
    assert!(fec.check_packets(1, &packets));
    let mut stray = packets[11].serialize().to_vec();
    stray[3] += 1;
    packets[11] = Packet::deserialize(stray).unwrap();
    assert_eq!(packets[11].symbol_id(), 1476);
    assert!(!fec.check_packets(1, &packets));
    assert!(fec.decode(1, packets).is_none());
    let mut packets = fec.encode(1, block.serialized());
    let mut stray = packets[0].serialize().to_vec();
    stray[3] = 10;
    packets[0] = Packet::deserialize(stray).unwrap();
    assert!(fec.decode(1, packets).is_none());
}

#[test]
fn decode_refuses_a_symbol_number_beyond_the_reach_of_the_decoder() {
    let fec = RaptorQ::new(1500, 14640, 20).unwrap();
    let block = Block::new(BlockType::Data, &fec, 3, Some(&[1u8; 10])).unwrap();
    // every source packet but the last, and a packet numbered 3158229
    let mut packets = fec.encode(7, block.serialized());
    packets.truncate(9);
    let mut bytes = vec![7u8, 0x30, 0x30, 0xD5];
    bytes.resize(4 + 1464, 0);
    let stray = Packet::deserialize(bytes).unwrap();
    assert_eq!(stray.symbol_id(), 3_158_229);
    packets.push(stray);
    assert_eq!(packets.len(), 10);
    assert!(!fec.check_packets(7, &packets));
    assert!(fec.decode(7, packets).is_none());
}
