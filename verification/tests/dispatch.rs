use diode::protocol::{Block, BlockType, Error, Parameter, RaptorQ};
use diode::receive::client::{client_end_ok, on_block, Progress};
use diode::receive::decode::{on_reassembled, to_dispatch};
use diode::receive::dispatch::{Action, Dispatch};
use diode::receive::reblock::Reassembled;

fn fec() -> RaptorQ {
    RaptorQ::new(1500, 2928, 0).unwrap()
}

fn block(kind: BlockType, client_id: u32, data: Option<&[u8]>) -> Block {
    Block::new(kind, &fec(), client_id, data).unwrap()
}

#[test]
fn start_opens_a_transfer() {
    let mut stage = Dispatch::new();
    assert!(!stage.is_active(7));
    match stage.on_block(block(BlockType::Start, 7, None)) {
        Action::Start { client_id, block } => {
            assert_eq!(client_id, 7);
            assert_eq!(block.block_type(), Ok(BlockType::Start));
        }
        _ => panic!("a transfer was to start"),
    }
    assert!(stage.is_active(7));
    assert_eq!(stage.nb_active(), 1);
}

#[test]
fn second_start_of_a_client_replaces_the_first() {
    let mut stage = Dispatch::new();
    stage.on_block(block(BlockType::Start, 7, None));
    stage.on_block(block(BlockType::Start, 8, None));
    assert!(matches!(
        stage.on_block(block(BlockType::Start, 7, None)),
        Action::Start { client_id: 7, .. }
    ));
    assert_eq!(stage.nb_active(), 2);
    // the transfer of client 7 is the younger one now
    let aborts = stage.on_sync_lost(&fec()).unwrap();
    let order: Vec<u32> = aborts.iter().map(|(id, _)| *id).collect();
    assert_eq!(order, vec![8, 7]);
}

#[test]
fn data_goes_to_an_active_transfer_only() {
    let mut stage = Dispatch::new();
    assert!(matches!(
        stage.on_block(block(BlockType::Data, 3, Some(&[1, 2, 3]))),
        Action::Drop
    ));
    stage.on_block(block(BlockType::Start, 3, None));
    match stage.on_block(block(BlockType::Data, 3, Some(&[1, 2, 3]))) {
        Action::Forward { client_id, block } => {
            assert_eq!(client_id, 3);
            assert_eq!(block.payload(), &[1, 2, 3]);
        }
        _ => panic!("the block was to be forwarded"),
    }
    assert!(matches!(
        stage.on_block(block(BlockType::Data, 4, Some(&[1]))),
        Action::Drop
    ));
    assert!(stage.is_active(3));
}

#[test]
fn end_and_abort_close_the_transfer() {
    for kind in [BlockType::End, BlockType::Abort] {
        let mut stage = Dispatch::new();
        assert!(matches!(stage.on_block(block(kind, 3, None)), Action::Drop));
        stage.on_block(block(BlockType::Start, 3, None));
        stage.on_block(block(BlockType::Start, 4, None));
        match stage.on_block(block(kind, 3, None)) {
            Action::Finish { client_id, block } => {
                assert_eq!(client_id, 3);
                assert_eq!(block.block_type(), Ok(kind));
            }
            _ => panic!("the transfer was to end"),
        }
        assert!(!stage.is_active(3));
        assert!(stage.is_active(4));
        assert!(matches!(
            stage.on_block(block(BlockType::Data, 3, Some(&[1]))),
            Action::Drop
        ));
    }
}

#[test]
fn heartbeat_changes_nothing() {
    let mut stage = Dispatch::new();
    stage.on_block(block(BlockType::Start, 3, None));
    assert!(matches!(
        stage.on_block(block(BlockType::Heartbeat, 0, None)),
        Action::Heartbeat
    ));
    assert_eq!(stage.nb_active(), 1);
}

#[test]
fn unknown_and_malformed_blocks_are_dropped() {
    let mut stage = Dispatch::new();
    stage.on_block(block(BlockType::Start, 0, None));
    let mut bytes = vec![0u8; 32];
    bytes[4] = 9;
    assert!(matches!(stage.on_block(Block::deserialize(bytes)), Action::Drop));
    assert!(matches!(
        stage.on_block(Block::deserialize(vec![0, 0, 0, 0, 2])),
        Action::Drop
    ));
    let mut bytes = vec![0u8; 32];
    bytes[4] = 2;
    bytes[5] = 24;
    assert!(matches!(stage.on_block(Block::deserialize(bytes)), Action::Drop));
    assert_eq!(stage.nb_active(), 1);
}

#[test]
fn lost_synchronization_aborts_every_transfer() {
    let mut stage = Dispatch::new();
    assert!(stage.on_sync_lost(&fec()).unwrap().is_empty());
    for id in [5u32, 1, 9] {
        stage.on_block(block(BlockType::Start, id, None));
    }
    let aborts = stage.on_sync_lost(&fec()).unwrap();
    assert_eq!(aborts.len(), 3);
    for ((client_id, abort), expected) in aborts.iter().zip([5u32, 1, 9]) {
        assert_eq!(*client_id, expected);
        assert_eq!(abort.client_id(), expected);
        assert_eq!(abort.block_type(), Ok(BlockType::Abort));
        assert_eq!(abort.serialized().len(), 2928);
        assert!(abort.payload().is_empty());
    }
    assert_eq!(stage.nb_active(), 0);
    assert!(stage.on_sync_lost(&fec()).unwrap().is_empty());
}

#[test]
fn lost_synchronization_fails_without_room_for_a_header() {
    let tiny = RaptorQ::new(40, 8, 0).unwrap();
    let mut stage = Dispatch::new();
    assert!(stage.on_sync_lost(&tiny).unwrap().is_empty());
    stage.on_block(block(BlockType::Start, 5, None));
    assert_eq!(
        stage.on_sync_lost(&tiny).err(),
        Some(Error::InvalidParameter(Parameter::BlockLength))
    );
    assert!(stage.is_active(5));
}

#[test]
fn failed_send_forgets_the_transfer() {
    let mut stage = Dispatch::new();
    stage.on_block(block(BlockType::Start, 5, None));
    stage.on_block(block(BlockType::Start, 6, None));
    stage.forget(5);
    assert!(!stage.is_active(5));
    assert!(stage.is_active(6));
    stage.forget(77);
    assert_eq!(stage.nb_active(), 1);
}

#[test]
fn ended_queues_are_kept_until_drained() {
    let mut stage = Dispatch::new();
    assert!(stage.retire(1, &vec![]).is_empty());
    assert!(stage.retire(2, &vec![]).is_empty());
    assert_eq!(stage.nb_ended(), 2);
    // queue 1 is found empty when the next transfer ends
    assert_eq!(stage.retire(3, &vec![1, 40]), vec![1]);
    assert_eq!(stage.nb_ended(), 2);
    assert_eq!(stage.retire(4, &vec![2, 3]), vec![2, 3]);
    assert_eq!(stage.nb_ended(), 1);
    // a client that ends again takes the place of its earlier queue
    assert!(stage.retire(4, &vec![]).is_empty());
    assert_eq!(stage.nb_ended(), 1);
}

#[test]
fn writer_writes_payload_and_goes_on() {
    let data = block(BlockType::Data, 1, Some(&[1, 2, 3]));
    let step = on_block(&data, false).unwrap();
    assert_eq!(step.payload, &[1, 2, 3]);
    assert!(!step.flush);
    assert_eq!(step.progress, Progress::Continue);
    let step = on_block(&data, true).unwrap();
    assert!(step.flush);
    let start = block(BlockType::Start, 1, None);
    let step = on_block(&start, true).unwrap();
    assert!(step.payload.is_empty());
    assert!(!step.flush);
    assert_eq!(step.progress, Progress::Continue);
}

#[test]
fn writer_ends_on_end_and_abort() {
    let end = block(BlockType::End, 1, None);
    let step = on_block(&end, false).unwrap();
    assert!(step.payload.is_empty());
    assert!(step.flush);
    assert_eq!(step.progress, Progress::Finished);
    assert!(client_end_ok(step.progress));
    let abort = block(BlockType::Abort, 1, None);
    let step = on_block(&abort, false).unwrap();
    assert!(!step.flush);
    assert_eq!(step.progress, Progress::Aborted);
    assert!(!client_end_ok(step.progress));
    assert!(!client_end_ok(Progress::Continue));
}

#[test]
fn writer_treats_payload_of_any_kind_as_data() {
    // an End block that carries the last bytes of a stream
    let mut bytes = block(BlockType::Data, 1, Some(&[7, 8])).serialized().to_vec();
    bytes[4] = BlockType::End.serialized();
    let last = Block::deserialize(bytes);
    let step = on_block(&last, false).unwrap();
    assert_eq!(step.payload, &[7, 8]);
    assert!(step.flush);
    assert_eq!(step.progress, Progress::Finished);
}

#[test]
fn writer_refuses_unknown_and_malformed_blocks() {
    let mut bytes = vec![0u8; 32];
    bytes[4] = 200;
    assert_eq!(
        on_block(&Block::deserialize(bytes), false).err(),
        Some(Error::InvalidBlockType(Some(200)))
    );
    assert_eq!(
        on_block(&Block::deserialize(vec![0u8; 3]), false).err(),
        Some(Error::InvalidParameter(Parameter::Payload))
    );
}

#[test]
fn decoder_passes_lost_synchronization_on() {
    assert!(on_reassembled(&fec(), Reassembled::Error).is_none());
    assert!(to_dispatch(None).is_none());
    assert_eq!(to_dispatch(Some(vec![1, 2, 3])).unwrap().serialized(), &[1, 2, 3]);
}

#[test]
fn decoder_decodes_a_block() {
    let fec = fec();
    let sent = block(BlockType::Data, 11, Some(&[4u8; 2000]));
    let packets = fec.encode(3, sent.serialized());
    let got = on_reassembled(&fec, Reassembled::Block { id: 3, packets }).unwrap();
    assert_eq!(got.serialized(), sent.serialized());
    let packets = fec.encode(3, sent.serialized());
    assert!(on_reassembled(&fec, Reassembled::Block { id: 4, packets }).is_none());
    let mut packets = fec.encode(3, sent.serialized());
    packets.pop();
    assert!(on_reassembled(&fec, Reassembled::Block { id: 3, packets }).is_none());
}
