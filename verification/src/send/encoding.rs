//! Numbering of blocks, and the order in which their packets leave.
//!
//! Several workers encode in parallel. Each takes the number of its block
//! from one counter while it takes the block, and hands its packets on only
//! when a second counter has reached that number, so that packets leave in
//! the order of the block numbers.

use crate::protocol::{Block, Packet, RaptorQ};
use vstd::prelude::*;

verus! {

/// The block number that follows `id`, counting modulo 256.
pub open spec fn next_block_id(id: u8) -> u8 {
    if id == 255 {
        0u8
    } else {
        (id + 1) as u8
    }
}

/// A block number that goes round after 255.
pub struct BlockCounter {
    next: u8,
}

impl View for BlockCounter {
    type V = u8;

    closed spec fn view(&self) -> u8 {
        self.next
    }
}

impl BlockCounter {
    /// A counter that starts at block 0.
    pub fn new() -> (c: BlockCounter)
        ensures
            c@ == 0,
    {
        BlockCounter { next: 0 }
    }

    /// The number that is due.
    pub fn current(&self) -> (id: u8)
        ensures
            id == self@,
    {
        self.next
    }

    /// Claims the number that is due, and moves to the next.
    pub fn take(&mut self) -> (id: u8)
        ensures
            id == old(self)@,
            final(self)@ == next_block_id(old(self)@),
    {
        let id: u8 = self.next;
        self.next = if id == 255 {
            0
        } else {
            id + 1
        };
        id
    }

    /// Asks whether block `block_id` may leave now. It may where its number
    /// is the one that is due; the counter then moves to the next. It may
    /// not otherwise, and the counter stays.
    pub fn try_pass(&mut self, block_id: u8) -> (passed: bool)
        ensures
            passed == (block_id == old(self)@),
            final(self)@ == if passed {
                next_block_id(old(self)@)
            } else {
                old(self)@
            },
    {
        if self.next == block_id {
            self.take();
            true
        } else {
            false
        }
    }
}

/// Encodes one block under the number claimed for it.
pub fn encode_block(raptorq: &RaptorQ, block_id: u8, block: &Block) -> (packets: Option<Vec<Packet>>)
    requires
        raptorq.wf(),
    ensures
        packets is Some <==> block@.len() == raptorq.spec_block_size(),
        packets is Some ==> {
            &&& crate::protocol::packets_view(packets->0@) == crate::protocol::encoded_packets(
                block_id,
                raptorq.spec_packet_size(),
                raptorq.spec_min_nb_packets(),
                raptorq.spec_nb_repair_packets(),
                block@,
            )
            &&& packets->0@.len() == raptorq.spec_min_nb_packets()
                + raptorq.spec_nb_repair_packets()
            &&& raptorq.accepts_all(block_id, packets->0@)
            &&& forall|i: int|
                0 <= i < packets->0@.len() ==> (#[trigger] packets->0@[i]).wf()
                    && packets->0@[i].spec_block_id() == block_id
                    && packets->0@[i].spec_symbol_id() == raptorq.spec_symbol_id_at(i)
        },
{
    let bytes = block.serialized();
    if bytes.len() == raptorq.block_size() as usize {
        Some(raptorq.encode(block_id, bytes))
    } else {
        None
    }
}

} // verus!
