//! Decoding of reassembled packets into protocol blocks.

use crate::protocol::{Block, RaptorQ};
use crate::receive::reblock::Reassembled;
use vstd::prelude::*;

verus! {

/// What the decoder hands to the dispatch stage for a decoded block: the
/// bytes as a block, or the mark of lost synchronization where there are none.
pub fn to_dispatch(decoded: Option<Vec<u8>>) -> (message: Option<Block>)
    ensures
        match decoded {
            Some(bytes) => message is Some && message->0@ == bytes@,
            None => message is None,
        },
{
    match decoded {
        Some(bytes) => Some(Block::deserialize(bytes)),
        None => None,
    }
}

/// What the reblock stage handed over, as the dispatch stage will see it.
pub open spec fn spec_on_reassembled(raptorq: &RaptorQ, message: Reassembled) -> Option<Seq<u8>> {
    match message {
        Reassembled::Error => None,
        Reassembled::Block { id, packets } => raptorq.spec_decode(id, packets@),
    }
}

/// Handles one message of the reblock stage: the mark of lost
/// synchronization is passed on, and the packets of a block are decoded.
/// A block that cannot be decoded counts as lost synchronization.
pub fn on_reassembled(raptorq: &RaptorQ, message: Reassembled) -> (out: Option<Block>)
    requires
        raptorq.wf(),
    ensures
        (match out {
            Some(block) => Some(block@),
            None => None,
        }) == spec_on_reassembled(raptorq, message),
        out is Some ==> out->0@.len() == raptorq.spec_block_size(),
{
    match message {
        Reassembled::Error => None,
        Reassembled::Block { id, packets } => to_dispatch(raptorq.decode(id, packets)),
    }
}

} // verus!
