//! What the writer of one transfer does with each block of its queue.

use crate::protocol::{Block, BlockType, Error, Parameter};
use vstd::prelude::*;

verus! {

/// How a transfer goes on after a block.
#[derive(Clone, Copy, Debug, PartialEq, Eq, Structural)]
pub enum Progress {
    /// More blocks are to come.
    Continue,
    /// The transfer is complete.
    Finished,
    /// The transfer was given up.
    Aborted,
}

/// What to do with the sink of a transfer for one block.
pub struct Step<'a> {
    /// Bytes to write, if any.
    pub payload: &'a [u8],
    /// Whether to flush the sink after the write.
    pub flush: bool,
    /// Whether the transfer goes on.
    pub progress: Progress,
}

/// How the transfer goes on after a block of this kind.
pub open spec fn spec_progress(kind: BlockType) -> Progress {
    match kind {
        BlockType::Abort => Progress::Aborted,
        BlockType::End => Progress::Finished,
        _ => Progress::Continue,
    }
}

/// Why a block cannot be written, if it cannot: it is malformed, or of no
/// known kind.
pub open spec fn spec_refused(block: &Block) -> Option<Error> {
    if !block.wf() {
        Some(Error::InvalidParameter(Parameter::Payload))
    } else {
        match block.spec_block_type() {
            Err(e) => Some(e),
            Ok(_) => None,
        }
    }
}

/// Decides what the writer does with one block: the payload is written
/// whatever the kind of the block, the sink is flushed after a write where
/// `flush` asks for it and in any case at the end of the transfer, and an
/// `End` or `Abort` block ends the transfer.
pub fn on_block<'a>(block: &'a Block, flush: bool) -> (r: Result<Step<'a>, Error>)
    ensures
        match r {
            Ok(step) => {
                &&& spec_refused(block) is None
                &&& step.payload@ == block.spec_payload()
                &&& step.progress == spec_progress(block.spec_block_type()->Ok_0)
                &&& step.flush == ((flush && block.spec_payload().len() > 0) || step.progress
                    == Progress::Finished)
            },
            Err(e) => spec_refused(block) == Some(e),
        },
{
    if !block.is_well_formed() {
        return Err(Error::InvalidParameter(Parameter::Payload));
    }
    let kind = match block.block_type() {
        Err(e) => {
            return Err(e);
        },
        Ok(kind) => kind,
    };
    let payload = block.payload();
    let progress = match kind {
        BlockType::Abort => Progress::Aborted,
        BlockType::End => Progress::Finished,
        _ => Progress::Continue,
    };
    let finished = match kind {
        BlockType::End => true,
        _ => false,
    };
    Ok(Step { payload, flush: (flush && payload.len() > 0) || finished, progress })
}

/// Whether the sink of a transfer is closed as complete: so after an `End`
/// block, and not after an `Abort` block, a timeout or an error.
pub fn client_end_ok(progress: Progress) -> (ok: bool)
    ensures
        ok == (progress == Progress::Finished),
{
    match progress {
        Progress::Finished => true,
        _ => false,
    }
}

} // verus!
