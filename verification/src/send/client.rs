//! Cutting of the bytes of one client into protocol blocks.

use crate::protocol::{frame, Block, BlockType, ClientId, Error, Parameter, RaptorQ};
use vstd::prelude::*;

verus! {

/// The payloads of a list of blocks, one after the other.
pub open spec fn payloads(blocks: Seq<Block>) -> Seq<u8>
    decreases blocks.len(),
{
    if blocks.len() == 0 {
        Seq::<u8>::empty()
    } else {
        payloads(blocks.drop_last()) + blocks.last().spec_payload()
    }
}

/// The payloads of a list with one more block are those of the list
/// followed by that of the block.
pub proof fn lemma_payloads_push(blocks: Seq<Block>, block: Block)
    ensures
        payloads(blocks.push(block)) == payloads(blocks) + block.spec_payload(),
{
    assert(blocks.push(block).drop_last() =~= blocks);
}

/// What the framer of one client remembers between two reads.
pub struct FramerState {
    /// The client whose bytes are framed.
    pub client_id: ClientId,
    /// Length in bytes of every block.
    pub block_len: nat,
    /// Whether bytes are sent on as soon as they are read.
    pub flush: bool,
    /// Bytes read and not yet sent on.
    pub pending: Seq<u8>,
}

impl FramerState {
    /// Largest payload of a block.
    pub open spec fn capacity(self) -> int {
        self.block_len - 9
    }

    /// A block has room for a byte at least, its length fits in 32 bits,
    /// and fewer bytes are pending than a block can carry.
    pub open spec fn wf(self) -> bool {
        &&& 10 <= self.block_len <= u32::MAX
        &&& self.pending.len() < self.capacity()
    }

    /// A `Data` block of this client with the given payload.
    pub open spec fn data_frame(self, payload: Seq<u8>) -> Seq<u8> {
        frame(BlockType::Data, self.client_id, payload, self.block_len)
    }
}

/// The framer of one client.
pub struct Framer {
    client_id: ClientId,
    block_len: usize,
    flush: bool,
    buffer: Vec<u8>,
}

impl View for Framer {
    type V = FramerState;

    closed spec fn view(&self) -> FramerState {
        FramerState {
            client_id: self.client_id,
            block_len: self.block_len as nat,
            flush: self.flush,
            pending: self.buffer@,
        }
    }
}

impl Framer {
    /// Starts the framing of a client: hands out the framer and the `Start`
    /// block that opens the transfer. Fails where a block has no room for a
    /// single byte of payload.
    pub fn new(raptorq: &RaptorQ, client_id: ClientId, flush: bool) -> (r: Result<
        (Framer, Block),
        Error,
    >)
        ensures
            r is Err <==> raptorq.spec_block_size() < 10,
            match r {
                Ok((framer, start)) => {
                    &&& framer@.wf()
                    &&& framer@ == (FramerState {
                        client_id,
                        block_len: raptorq.spec_block_size() as nat,
                        flush,
                        pending: Seq::<u8>::empty(),
                    })
                    &&& start@ == frame(
                        BlockType::Start,
                        client_id,
                        Seq::<u8>::empty(),
                        raptorq.spec_block_size() as nat,
                    )
                    &&& start.wf()
                },
                Err(e) => e == Error::InvalidParameter(Parameter::BlockLength),
            },
    {
        let block_len: usize = raptorq.block_size() as usize;
        if block_len < 10 {
            return Err(Error::InvalidParameter(Parameter::BlockLength));
        }
        let start = Block::assemble(BlockType::Start, block_len, client_id, None);
        let framer = Framer { client_id, block_len, flush, buffer: Vec::new() };
        Ok((framer, start))
    }

    /// Largest payload of a block.
    pub fn capacity(&self) -> (n: usize)
        requires
            self@.wf(),
        ensures
            n == self@.capacity(),
    {
        self.block_len - 9
    }

    /// Number of bytes read and not yet sent on.
    pub fn pending(&self) -> (n: usize)
        ensures
            n == self@.pending.len(),
    {
        self.buffer.len()
    }

    /// Sends the pending bytes on as one `Data` block.
    fn emit(&mut self, out: &mut Vec<Block>)
        requires
            old(self)@.wf() || old(self)@.pending.len() == old(self)@.capacity(),
            10 <= old(self)@.block_len <= u32::MAX,
            old(self)@.pending.len() > 0,
        ensures
            final(self)@ == (FramerState { pending: Seq::<u8>::empty(), ..old(self)@ }),
            final(self)@.wf(),
            final(out)@ == old(out)@.push(final(out)@.last()),
            final(out)@.len() == old(out)@.len() + 1,
            final(out)@.last()@ == old(self)@.data_frame(old(self)@.pending),
            final(out)@.last().wf(),
            final(out)@.last().spec_payload() == old(self)@.pending,
            payloads(final(out)@) == payloads(old(out)@) + old(self)@.pending,
    {
        let block = Block::assemble(
            BlockType::Data,
            self.block_len,
            self.client_id,
            Some(self.buffer.as_slice()),
        );
        proof {
            lemma_payloads_push(out@, block);
        }
        out.push(block);
        self.buffer.clear();
    }

    /// Takes in the bytes of one read, and hands out the `Data` blocks that
    /// are due. Bytes fill one block after the other; a full block is sent
    /// on at once. What does not fill a block is sent on too where `flush`
    /// is set, and waits for more bytes where it is not.
    pub fn on_read(&mut self, data: &[u8]) -> (out: Vec<Block>)
        requires
            old(self)@.wf(),
        ensures
            final(self)@.wf(),
            final(self)@ == (FramerState { pending: final(self)@.pending, ..old(self)@ }),
            payloads(out@) + final(self)@.pending == old(self)@.pending + data@,
            old(self)@.flush ==> final(self)@.pending.len() == 0,
            forall|i: int|
                0 <= i < out@.len() ==> {
                    &&& (#[trigger] out@[i])@ == old(self)@.data_frame(out@[i].spec_payload())
                    &&& out@[i].wf()
                    &&& 1 <= out@[i].spec_payload().len() <= old(self)@.capacity()
                    &&& (i + 1 < out@.len() || !old(self)@.flush) ==> out@[i].spec_payload().len()
                        == old(self)@.capacity()
                },
    {
        let mut out: Vec<Block> = Vec::new();
        let capacity: usize = self.block_len - 9;
        let mut offset: usize = 0;
        assert(data@.subrange(0, 0) =~= Seq::<u8>::empty());
        assert(payloads(out@) + self@.pending =~= old(self)@.pending + Seq::<u8>::empty());
        while offset < data.len()
            invariant
                offset <= data@.len(),
                capacity == old(self)@.capacity(),
                self@.wf(),
                self@ == (FramerState { pending: self@.pending, ..old(self)@ }),
                payloads(out@) + self@.pending == old(self)@.pending + data@.subrange(
                    0,
                    offset as int,
                ),
                forall|i: int|
                    0 <= i < out@.len() ==> {
                        &&& (#[trigger] out@[i])@ == old(self)@.data_frame(out@[i].spec_payload())
                        &&& out@[i].wf()
                        &&& out@[i].spec_payload().len() == old(self)@.capacity()
                    },
            decreases data@.len() - offset,
        {
            let room: usize = capacity - self.buffer.len();
            let rest: usize = data.len() - offset;
            let take: usize = if rest < room {
                rest
            } else {
                room
            };
            let ghost before = self.buffer@;
            assert(payloads(out@) + before == old(self)@.pending + data@.subrange(
                0,
                offset as int,
            ));
            let mut i: usize = 0;
            while i < take
                invariant
                    i <= take,
                    offset + take <= data@.len() <= usize::MAX,
                    before.len() + take <= capacity,
                    self@ == (FramerState { pending: self@.pending, ..old(self)@ }),
                    self.buffer@ == before + data@.subrange(offset as int, offset + i),
                decreases take - i,
            {
                self.buffer.push(data[offset + i]);
                i += 1;
                assert(self.buffer@ =~= before + data@.subrange(offset as int, offset + i));
            }
            assert(data@.subrange(0, offset as int) + data@.subrange(
                offset as int,
                offset + take,
            ) =~= data@.subrange(0, offset + take));
            assert(payloads(out@) + self.buffer@ =~= (payloads(out@) + before) + data@.subrange(
                offset as int,
                offset + take,
            ));
            assert((old(self)@.pending + data@.subrange(0, offset as int)) + data@.subrange(
                offset as int,
                offset + take,
            ) =~= old(self)@.pending + data@.subrange(0, offset + take));
            offset += take;
            if self.buffer.len() == capacity {
                self.emit(&mut out);
                assert(payloads(out@) + self.buffer@ =~= old(self)@.pending + data@.subrange(
                    0,
                    offset as int,
                ));
            }
        }
        assert(data@.subrange(0, data@.len() as int) =~= data@);
        if self.flush && self.buffer.len() > 0 {
            self.emit(&mut out);
            assert(payloads(out@) + self.buffer@ =~= old(self)@.pending + data@);
        }
        out
    }

    /// The client closed its side: the pending bytes are sent on as a last
    /// `Data` block, if there are any, and an `End` block closes the transfer.
    pub fn on_eof(self) -> (out: Vec<Block>)
        requires
            self@.wf(),
        ensures
            payloads(out@) == self@.pending,
            out@.len() == if self@.pending.len() > 0 {
                2int
            } else {
                1int
            },
            self@.pending.len() > 0 ==> out@[0]@ == self@.data_frame(self@.pending) && out@[0].wf(),
            out@.last()@ == frame(
                BlockType::End,
                self@.client_id,
                Seq::<u8>::empty(),
                self@.block_len,
            ),
            out@.last().wf(),
    {
        let mut framer = self;
        let mut out: Vec<Block> = Vec::new();
        assert(payloads(out@) =~= Seq::<u8>::empty());
        if framer.buffer.len() > 0 {
            framer.emit(&mut out);
        }
        let end = Block::assemble(BlockType::End, framer.block_len, framer.client_id, None);
        proof {
            lemma_payloads_push(out@, end);
            assert(payloads(out@) + end.spec_payload() =~= payloads(out@));
            assert(Seq::<u8>::empty() + self@.pending =~= self@.pending);
        }
        out.push(end);
        out
    }

    /// Reading from the client failed: an `Abort` block tells the other side
    /// to give the transfer up. The pending bytes are lost.
    pub fn on_error(self) -> (abort: Block)
        requires
            self@.wf(),
        ensures
            abort@ == frame(
                BlockType::Abort,
                self@.client_id,
                Seq::<u8>::empty(),
                self@.block_len,
            ),
            abort.wf(),
    {
        Block::assemble(BlockType::Abort, self.block_len, self.client_id, None)
    }
}

} // verus!
