//! The block that tells the receiver that the link is alive.

use crate::protocol::{frame, Block, BlockType, Error, Parameter, RaptorQ};
use vstd::prelude::*;

verus! {

/// Makes the heartbeat block: no client, no payload. Fails where a block
/// has no room for its header.
pub fn heartbeat_block(raptorq: &RaptorQ) -> (r: Result<Block, Error>)
    ensures
        r is Err <==> raptorq.spec_block_size() < 9,
        match r {
            Ok(block) => {
                &&& block@ == frame(
                    BlockType::Heartbeat,
                    0,
                    Seq::<u8>::empty(),
                    raptorq.spec_block_size() as nat,
                )
                &&& block.wf()
            },
            Err(e) => e == Error::InvalidParameter(Parameter::BlockLength),
        },
{
    Block::new(BlockType::Heartbeat, raptorq, 0, None)
}

} // verus!
