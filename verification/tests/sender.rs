use diode::protocol::{Block, BlockType, Error, Packet, Parameter, RaptorQ};
use diode::receive::udp::{buffer_is_short, receive_buffer_size};
use diode::send::client::Framer;
use diode::send::encoding::{encode_block, BlockCounter};
use diode::send::heartbeat::heartbeat_block;
use diode::send::server::abort_block;
use diode::send::udp::send_buffer_size;
use diode::udp::{fully_sent, mode, next_batch, Datagrams, Mode};

fn fec() -> RaptorQ {
    // 2 packets of 24 bytes: blocks of 48 bytes, payloads of up to 39
    RaptorQ::new(56 + 7, 48, 0).unwrap()
}

fn payloads(blocks: &[Block]) -> Vec<u8> {
    blocks.iter().flat_map(|b| b.payload().to_vec()).collect()
}

#[test]
fn framer_opens_with_a_start_block() {
    let fec = fec();
    assert_eq!(fec.block_size(), 48);
    let (framer, start) = Framer::new(&fec, 12, false).unwrap();
    assert_eq!(start.block_type(), Ok(BlockType::Start));
    assert_eq!(start.client_id(), 12);
    assert_eq!(start.serialized().len(), 48);
    assert!(start.payload().is_empty());
    assert_eq!(framer.capacity(), 39);
    assert_eq!(framer.pending(), 0);
}

#[test]
fn framer_needs_room_for_a_byte() {
    let tiny = RaptorQ::new(40, 8, 0).unwrap();
    assert_eq!(
        Framer::new(&tiny, 1, true).err(),
        Some(Error::InvalidParameter(Parameter::BlockLength))
    );
}

#[test]
fn framer_waits_for_a_full_block() {
    let (mut framer, _) = Framer::new(&fec(), 12, false).unwrap();
    assert!(framer.on_read(&[1u8; 20]).is_empty());
    assert_eq!(framer.pending(), 20);
    let out = framer.on_read(&[2u8; 20]);
    assert_eq!(out.len(), 1);
    assert_eq!(out[0].block_type(), Ok(BlockType::Data));
    assert_eq!(out[0].client_id(), 12);
    let mut expected = vec![1u8; 20];
    expected.extend_from_slice(&[2u8; 19]);
    assert_eq!(out[0].payload(), &expected[..]);
    assert_eq!(framer.pending(), 1);
}

#[test]
fn framer_sends_at_once_in_latency_mode() {
    let (mut framer, _) = Framer::new(&fec(), 12, true).unwrap();
    let out = framer.on_read(&[1, 2, 3]);
    assert_eq!(out.len(), 1);
    assert_eq!(out[0].payload(), &[1, 2, 3]);
    assert_eq!(framer.pending(), 0);
    assert!(framer.on_read(&[]).is_empty());
}

#[test]
fn framer_cuts_a_long_read_into_blocks() {
    let data: Vec<u8> = (0..100u8).collect();
    let (mut framer, _) = Framer::new(&fec(), 12, false).unwrap();
    let out = framer.on_read(&data);
    assert_eq!(out.len(), 2);
    assert_eq!(out[0].payload(), &data[..39]);
    assert_eq!(out[1].payload(), &data[39..78]);
    assert_eq!(framer.pending(), 22);
    let (mut framer, _) = Framer::new(&fec(), 12, true).unwrap();
    let out = framer.on_read(&data);
    assert_eq!(out.len(), 3);
    assert_eq!(out[2].payload(), &data[78..]);
    assert_eq!(framer.pending(), 0);
}

#[test]
fn framer_keeps_every_byte_in_order() {
    let data: Vec<u8> = (0..=255u8).cycle().take(1000).collect();
    for flush in [false, true] {
        let (mut framer, _) = Framer::new(&fec(), 1, flush).unwrap();
        let mut sent = Vec::new();
        for chunk in data.chunks(17) {
            sent.extend(framer.on_read(chunk));
        }
        let last = framer.on_eof();
        assert_eq!(last.last().unwrap().block_type(), Ok(BlockType::End));
        assert!(last.last().unwrap().payload().is_empty());
        sent.extend(last);
        assert_eq!(payloads(&sent), data);
        let kinds: Vec<BlockType> = sent.iter().map(|b| b.block_type().unwrap()).collect();
        assert!(kinds[..kinds.len() - 1].iter().all(|k| *k == BlockType::Data));
    }
}

#[test]
fn framer_ends_with_the_pending_bytes_then_end() {
    let (mut framer, _) = Framer::new(&fec(), 12, false).unwrap();
    framer.on_read(&[9, 9]);
    let out = framer.on_eof();
    assert_eq!(out.len(), 2);
    assert_eq!(out[0].block_type(), Ok(BlockType::Data));
    assert_eq!(out[0].payload(), &[9, 9]);
    assert_eq!(out[1].block_type(), Ok(BlockType::End));
    assert_eq!(out[1].client_id(), 12);
    let (framer, _) = Framer::new(&fec(), 12, false).unwrap();
    let out = framer.on_eof();
    assert_eq!(out.len(), 1);
    assert_eq!(out[0].block_type(), Ok(BlockType::End));
}

#[test]
fn framer_aborts_on_error() {
    let (mut framer, _) = Framer::new(&fec(), 12, false).unwrap();
    framer.on_read(&[9, 9]);
    let abort = framer.on_error();
    assert_eq!(abort.block_type(), Ok(BlockType::Abort));
    assert_eq!(abort.client_id(), 12);
    assert!(abort.payload().is_empty());
}

#[test]
fn heartbeat_and_abort_blocks() {
    let fec = fec();
    let heartbeat = heartbeat_block(&fec).unwrap();
    assert_eq!(heartbeat.block_type(), Ok(BlockType::Heartbeat));
    assert_eq!(heartbeat.client_id(), 0);
    assert!(heartbeat.serialized().iter().all(|b| *b == 0));
    let abort = abort_block(&fec, 77).unwrap();
    assert_eq!(abort.block_type(), Ok(BlockType::Abort));
    assert_eq!(abort.client_id(), 77);
    let tiny = RaptorQ::new(40, 8, 0).unwrap();
    assert_eq!(
        heartbeat_block(&tiny).err(),
        Some(Error::InvalidParameter(Parameter::BlockLength))
    );
    assert_eq!(
        abort_block(&tiny, 1).err(),
        Some(Error::InvalidParameter(Parameter::BlockLength))
    );
}

#[test]
fn block_numbers_count_up_and_go_round() {
    let mut counter = BlockCounter::new();
    assert_eq!(counter.current(), 0);
    for expected in 0..=255u8 {
        assert_eq!(counter.take(), expected);
    }
    assert_eq!(counter.current(), 0);
    assert_eq!(counter.take(), 0);
    assert_eq!(counter.take(), 1);
}

#[test]
fn packets_leave_in_the_order_of_the_block_numbers() {
    let mut to_encode = BlockCounter::new();
    let mut to_send = BlockCounter::new();
    let first = to_encode.take();
    let second = to_encode.take();
    let third = to_encode.take();
    assert!(!to_send.try_pass(second));
    assert!(!to_send.try_pass(third));
    assert_eq!(to_send.current(), 0);
    assert!(to_send.try_pass(first));
    assert!(!to_send.try_pass(first));
    assert!(!to_send.try_pass(third));
    assert!(to_send.try_pass(second));
    assert!(to_send.try_pass(third));
    assert_eq!(to_send.current(), 3);
}

#[test]
fn encoding_needs_a_block_of_the_right_length() {
    let fec = fec();
    let block = Block::new(BlockType::Data, &fec, 1, Some(&[1, 2, 3])).unwrap();
    let packets = encode_block(&fec, 9, &block).unwrap();
    assert_eq!(packets.len(), 2);
    assert!(packets.iter().all(|p| p.block_id() == 9 && p.len() == 28));
    assert!(encode_block(&fec, 9, &Block::deserialize(vec![0u8; 47])).is_none());
    assert!(encode_block(&fec, 9, &Block::deserialize(vec![0u8; 49])).is_none());
}

#[test]
fn batch_mode_needs_more_than_one_datagram() {
    assert_eq!(mode(None), Mode::Single);
    assert_eq!(mode(Some(0)), Mode::Single);
    assert_eq!(mode(Some(1)), Mode::Single);
    assert_eq!(mode(Some(2)), Mode::Batch(2));
    assert_eq!(mode(Some(1024)), Mode::Batch(1024));
}

#[test]
fn batches_are_whole_but_the_last() {
    assert_eq!(next_batch(512, 100), 100);
    assert_eq!(next_batch(100, 100), 100);
    assert_eq!(next_batch(12, 100), 12);
    assert_eq!(next_batch(0, 100), 0);
    let mut remaining = 512usize;
    let mut sizes = Vec::new();
    while remaining > 0 {
        let n = next_batch(remaining, 100);
        sizes.push(n);
        remaining -= n;
    }
    assert_eq!(sizes, vec![100, 100, 100, 100, 100, 12]);
}

#[test]
fn short_send_is_told() {
    assert!(fully_sent(1468, 1468));
    assert!(!fully_sent(1467, 1468));
    assert!(!fully_sent(-1, 1468));
    assert!(!fully_sent(-1, usize::MAX));
    assert!(fully_sent(0, 0));
}

#[test]
fn socket_buffer_sizes() {
    assert_eq!(send_buffer_size(512, 1500), Some(768_000));
    assert_eq!(receive_buffer_size(512, 1500), Some(98_304_000));
    assert_eq!(send_buffer_size(32768, 65535), Some(2_147_450_880));
    assert_eq!(send_buffer_size(32769, 65535), None);
    assert_eq!(receive_buffer_size(256, 65535), Some(2_147_450_880));
    assert_eq!(receive_buffer_size(257, 65535), None);
    assert_eq!(receive_buffer_size(0, 1500), Some(0));
    assert!(buffer_is_short(425_984, 768_000));
    assert!(!buffer_is_short(768_000, 768_000));
    assert!(!buffer_is_short(u32::MAX, i32::MAX));
}

#[test]
fn datagrams_become_packets() {
    let single = Datagrams::Single(vec![1, 0, 0, 0, 9]);
    let packets: Vec<Packet> = single.into_packets();
    assert_eq!(packets.len(), 1);
    assert_eq!(packets[0].serialize(), &[1, 0, 0, 0, 9]);
    assert!(Datagrams::Single(vec![1, 0, 0]).into_packets().is_empty());
    let batch = Datagrams::Multiple(vec![
        vec![3, 0, 0, 0],
        vec![],
        vec![4, 0, 0, 1, 1],
        vec![5, 5, 5],
        vec![6, 0, 0, 2, 2, 2],
    ]);
    let ids: Vec<u8> = batch.into_packets().iter().map(|p| p.block_id()).collect();
    assert_eq!(ids, vec![3, 4, 6]);
    assert!(Datagrams::Multiple(Vec::new()).into_packets().is_empty());
}
