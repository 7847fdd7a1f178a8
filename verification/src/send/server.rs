//! What the worker that serves one client after the other decides.

use crate::protocol::{frame, Block, BlockType, ClientId, Error, Parameter, RaptorQ};
use vstd::prelude::*;

verus! {

/// Makes the block that tells the receiver to give up the transfer of a
/// client whose framing failed. Fails where a block has no room for its
/// header.
pub fn abort_block(raptorq: &RaptorQ, client_id: ClientId) -> (r: Result<Block, Error>)
    ensures
        r is Err <==> raptorq.spec_block_size() < 9,
        match r {
            Ok(block) => {
                &&& block@ == frame(
                    BlockType::Abort,
                    client_id,
                    Seq::<u8>::empty(),
                    raptorq.spec_block_size() as nat,
                )
                &&& block.wf()
            },
            Err(e) => e == Error::InvalidParameter(Parameter::BlockLength),
        },
{
    Block::new(BlockType::Abort, raptorq, client_id, None)
}

} // verus!
