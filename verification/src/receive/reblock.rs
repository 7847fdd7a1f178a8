//! Grouping of packets by block number, under a sliding window that copes
//! with datagrams that arrive out of order.

use crate::protocol::{Packet, RaptorQ};
use vstd::prelude::*;

verus! {

/// Number of consecutive block numbers that are accepted at any time.
pub const WINDOW_WIDTH: u8 = 128;

/// What the stage hands to the decoders.
pub enum Reassembled {
    /// Synchronization was lost.
    Error,
    /// Enough packets of block `id` to decode it.
    Block { id: u8, packets: Vec<Packet> },
}

/// Whether block `id` lies among the 128 numbers that start at `head`,
/// counting modulo 256.
pub open spec fn in_window(head: int, id: int) -> bool {
    (id - head) % 256 < 128
}

/// The packets of a batch that belong to block `id`, in their order of arrival.
pub open spec fn of_block(batch: Seq<Packet>, id: int) -> Seq<Packet> {
    batch.filter(|p: Packet| p.spec_block_id() == id)
}

/// The buckets once the `count` blocks from `head` on have left: those are
/// empty, the others are as they were.
pub open spec fn emptied(buckets: Seq<Seq<Packet>>, head: int, count: int) -> Seq<Seq<Packet>> {
    Seq::new(
        256,
        |i: int|
            if (i - head) % 256 < count {
                Seq::<Packet>::empty()
            } else {
                buckets[i]
            },
    )
}

/// The ignore flags of the window that starts at `head`.
pub open spec fn window_flags(head: int) -> Seq<bool> {
    Seq::new(256, |i: int| !in_window(head, i))
}

/// Number of blocks that are ready to leave, counted from block `head` on:
/// the blocks in a row that hold `min` packets at least, `limit` at most.
pub open spec fn ready_from(buckets: Seq<Seq<Packet>>, head: int, min: nat, limit: nat) -> nat
    decreases limit,
{
    if limit == 0 || buckets[head % 256].len() < min {
        0
    } else {
        1 + ready_from(buckets, head + 1, min, (limit - 1) as nat)
    }
}

/// What the stage remembers between two arrivals.
pub struct ReblockState {
    /// The packets gathered for each of the 256 block numbers.
    pub buckets: Seq<Seq<Packet>>,
    /// For each block number, whether its packets are dropped on arrival.
    pub ignore: Seq<bool>,
    /// The block that is forwarded next.
    pub head: u8,
    /// Whether the next datagram starts a new window.
    pub reset: bool,
    /// Number of packets that make a block ready to decode.
    pub min: nat,
}

impl ReblockState {
    /// Every bucket holds packets of its own block only, a bucket whose number
    /// is ignored holds nothing, and outside a reset the numbers accepted are
    /// those of the window at the head.
    pub open spec fn wf(self) -> bool {
        &&& self.buckets.len() == 256
        &&& self.ignore.len() == 256
        &&& self.min >= 1
        &&& forall|i: int, j: int|
            0 <= i < 256 && 0 <= j < self.buckets[i].len() ==> (#[trigger] self.buckets[i][j]).wf()
                && self.buckets[i][j].spec_block_id() == i
        &&& forall|i: int| 0 <= i < 256 && self.ignore[i] ==> (#[trigger] self.buckets[i]).len() == 0
        &&& !self.reset ==> self.ignore == window_flags(self.head as int)
    }

    /// Some ignored block number holds packets.
    pub open spec fn damaged(self) -> bool {
        exists|i: int| 0 <= i < 256 && self.ignore[i] && (#[trigger] self.buckets[i]).len() > 0
    }

    /// The state before anything arrived: nothing held, nothing accepted.
    pub open spec fn idle(min: nat) -> ReblockState {
        ReblockState {
            buckets: Seq::new(256, |i: int| Seq::<Packet>::empty()),
            ignore: Seq::new(256, |i: int| true),
            head: 0,
            reset: true,
            min,
        }
    }

    /// The state of a new window that starts at `head`.
    pub open spec fn fresh(head: u8, min: nat) -> ReblockState {
        ReblockState {
            buckets: Seq::new(256, |i: int| Seq::<Packet>::empty()),
            ignore: window_flags(head as int),
            head,
            reset: false,
            min,
        }
    }

    /// The state in which a batch is taken: after a reset, a new window at
    /// the block of the first datagram.
    pub open spec fn started(self, batch: Seq<Packet>) -> ReblockState {
        if self.reset {
            Self::fresh(batch[0].spec_block_id(), self.min)
        } else {
            self
        }
    }

    /// Number of blocks that a batch makes leave: those ready in a row
    /// from the head of the window on, once the batch is taken in.
    pub open spec fn ready(self, batch: Seq<Packet>) -> nat {
        let st = self.started(batch);
        ready_from(st.filled(batch), st.head as int, st.min, 128)
    }

    /// The numbers of the blocks that a batch makes leave, in the order in
    /// which they leave: one after the other from the head of the window on.
    pub open spec fn forwarded(self, batch: Seq<Packet>) -> Seq<u8> {
        if batch.len() == 0 {
            Seq::<u8>::empty()
        } else {
            Seq::new(self.ready(batch), |j: int| ((self.started(batch).head + j) % 256) as u8)
        }
    }

    /// The state after a batch: the blocks that left are empty, and the
    /// window starts behind them.
    pub open spec fn after(self, batch: Seq<Packet>) -> ReblockState {
        if batch.len() == 0 {
            self
        } else {
            let st = self.started(batch);
            let count = self.ready(batch);
            ReblockState {
                buckets: emptied(st.filled(batch), st.head as int, count as int),
                ignore: window_flags((st.head + count) % 256),
                head: ((st.head + count) % 256) as u8,
                reset: false,
                min: st.min,
            }
        }
    }

    /// The buckets after the packets of a batch have been kept or dropped.
    pub open spec fn filled(self, batch: Seq<Packet>) -> Seq<Seq<Packet>> {
        Seq::new(
            256,
            |i: int|
                if self.ignore[i] {
                    self.buckets[i]
                } else {
                    self.buckets[i] + of_block(batch, i)
                },
        )
    }
}

/// The sliding window of the reblock stage.
pub struct Reblock {
    buckets: Vec<Vec<Packet>>,
    ignore: Vec<bool>,
    head: u8,
    reset: bool,
    min_nb_packets: usize,
}

impl View for Reblock {
    type V = ReblockState;

    closed spec fn view(&self) -> ReblockState {
        ReblockState {
            buckets: Seq::new(self.buckets@.len(), |i: int| self.buckets@[i]@),
            ignore: self.ignore@,
            head: self.head,
            reset: self.reset,
            min: self.min_nb_packets as nat,
        }
    }
}

/// Tells whether block `id` lies in the window that starts at `head`.
pub fn accepted_from(head: u8, id: u8) -> (b: bool)
    ensures
        b == in_window(head as int, id as int),
{
    let distance: u16 = if id >= head {
        (id - head) as u16
    } else {
        256 - (head - id) as u16
    };
    distance < WINDOW_WIDTH as u16
}

impl Reblock {
    /// A stage that has seen nothing yet, for blocks that decode from
    /// `raptorq.min_nb_packets()` packets.
    pub fn new(raptorq: &RaptorQ) -> (r: Reblock)
        requires
            raptorq.wf(),
        ensures
            r@ == ReblockState::idle(raptorq.spec_min_nb_packets() as nat),
            r@.wf(),
    {
        let mut buckets: Vec<Vec<Packet>> = Vec::new();
        let mut ignore: Vec<bool> = Vec::new();
        let mut i: usize = 0;
        while i < 256
            invariant
                i <= 256,
                buckets@.len() == i,
                ignore@.len() == i,
                forall|j: int| 0 <= j < i ==> (#[trigger] buckets@[j])@.len() == 0,
                forall|j: int| 0 <= j < i ==> #[trigger] ignore@[j],
            decreases 256 - i,
        {
            buckets.push(Vec::new());
            ignore.push(true);
            i += 1;
        }
        let r = Reblock {
            buckets,
            ignore,
            head: 0,
            reset: true,
            min_nb_packets: raptorq.min_nb_packets() as usize,
        };
        assert(r@.buckets =~~= ReblockState::idle(raptorq.spec_min_nb_packets() as nat).buckets);
        assert(r@.ignore =~= ReblockState::idle(raptorq.spec_min_nb_packets() as nat).ignore);
        r
    }

    /// The block that is forwarded next.
    pub fn head(&self) -> (id: u8)
        ensures
            id == self@.head,
    {
        self.head
    }

    /// Whether the next datagram starts a new window.
    pub fn is_reset(&self) -> (b: bool)
        ensures
            b == self@.reset,
    {
        self.reset
    }

    /// Number of packets held for block `id`.
    pub fn pending(&self, id: u8) -> (n: usize)
        requires
            self@.wf(),
        ensures
            n == self@.buckets[id as int].len(),
    {
        self.buckets[id as usize].len()
    }

    /// No datagram came for the time of the reset timeout: the next one
    /// starts a new window. Tells whether synchronization was lost, which is
    /// so where an ignored block number holds packets.
    pub fn on_timeout(&mut self) -> (lost: bool)
        requires
            old(self)@.wf(),
        ensures
            final(self)@ == (ReblockState { reset: true, ..old(self)@ }),
            final(self)@.wf(),
            lost == old(self)@.damaged(),
    {
        self.reset = true;
        let mut damaged = false;
        let mut id: usize = 0;
        while id < 256
            invariant
                id <= 256,
                self@ == (ReblockState { reset: true, ..old(self)@ }),
                old(self)@.wf(),
                self.buckets@.len() == 256,
                self.ignore@.len() == 256,
                !damaged,
            decreases 256 - id,
        {
            if self.ignore[id] && !self.buckets[id].is_empty() {
                assert(self@.buckets[id as int].len() > 0);
                damaged = true;
            }
            id += 1;
        }
        damaged
    }

    /// Starts a new window at block `first`: every bucket is emptied, and the
    /// 128 numbers from `first` on are accepted.
    fn restart(&mut self, first: u8)
        requires
            old(self).buckets@.len() == 256,
            old(self).ignore@.len() == 256,
        ensures
            final(self)@ == ReblockState::fresh(first, old(self)@.min),
            final(self).buckets@.len() == 256,
            final(self).ignore@.len() == 256,
    {
        let mut i: usize = 0;
        while i < 256
            invariant
                i <= 256,
                self.buckets@.len() == 256,
                self.ignore@.len() == 256,
                self.min_nb_packets == old(self).min_nb_packets,
                forall|j: int| 0 <= j < i ==> (#[trigger] self.buckets@[j])@.len() == 0,
                forall|j: int|
                    0 <= j < i ==> #[trigger] self.ignore@[j] == !in_window(first as int, j),
            decreases 256 - i,
        {
            self.buckets[i].clear();
            let accepted = accepted_from(first, i as u8);
            self.ignore[i] = !accepted;
            i += 1;
        }
        self.head = first;
        self.reset = false;
        assert(self@.buckets =~~= ReblockState::fresh(first, old(self)@.min).buckets);
        assert(self@.ignore =~= ReblockState::fresh(first, old(self)@.min).ignore);
    }

    /// Keeps a packet in the bucket of its block, unless the block is ignored.
    fn store(&mut self, packet: Packet)
        requires
            old(self).buckets@.len() == 256,
            old(self).ignore@.len() == 256,
            packet.wf(),
        ensures
            final(self).buckets@.len() == 256,
            final(self).ignore@.len() == 256,
            final(self)@ == (ReblockState {
                buckets: if old(self)@.ignore[packet.spec_block_id() as int] {
                    old(self)@.buckets
                } else {
                    old(self)@.buckets.update(
                        packet.spec_block_id() as int,
                        old(self)@.buckets[packet.spec_block_id() as int].push(packet),
                    )
                },
                ..old(self)@
            }),
    {
        let id: usize = packet.block_id() as usize;
        if !self.ignore[id] {
            self.buckets[id].push(packet);
            assert(self@.buckets =~~= old(self)@.buckets.update(
                id as int,
                old(self)@.buckets[id as int].push(packet),
            ));
        } else {
            assert(self@.buckets =~~= old(self)@.buckets);
        }
    }

    /// Takes the packets of a batch in: each goes to the bucket of its block
    /// unless the block is ignored.
    fn store_all(&mut self, batch: Vec<Packet>)
        requires
            old(self).buckets@.len() == 256,
            old(self).ignore@.len() == 256,
            forall|i: int| 0 <= i < batch@.len() ==> (#[trigger] batch@[i]).wf(),
        ensures
            final(self).buckets@.len() == 256,
            final(self).ignore@.len() == 256,
            final(self)@ == (ReblockState { buckets: old(self)@.filled(batch@), ..old(self)@ }),
    {
        let ghost st = self@;
        let ghost arrived = batch@;
        proof {
            lemma_filled_nothing(st);
        }
        for packet in iter: batch.into_iter()
            invariant
                iter.seq() == arrived,
                forall|i: int| 0 <= i < arrived.len() ==> (#[trigger] arrived[i]).wf(),
                st.buckets.len() == 256,
                st.ignore.len() == 256,
                self.buckets@.len() == 256,
                self.ignore@.len() == 256,
                self@ == (ReblockState {
                    buckets: st.filled(arrived.subrange(0, iter.index() as int)),
                    ..st
                }),
        {
            let ghost k = iter.index() as int;
            proof {
                lemma_filled_one_more(st, arrived, k);
            }
            assert(packet == arrived[k]);
            self.store(packet);
        }
        assert(arrived.subrange(0, arrived.len() as int) =~= arrived);
    }

    /// Forwards the blocks that are ready, from the head on and in the order
    /// of their numbers, and moves the window past each of them.
    #[verifier::rlimit(50)]
    fn advance(&mut self) -> (out: Vec<Reassembled>)
        requires
            old(self)@.wf(),
            !old(self)@.reset,
        ensures
            final(self)@.wf(),
            out@.len() <= 128,
            forall|j: int|
                0 <= j < out@.len() ==> {
                    &&& (#[trigger] out@[j]) is Block
                    &&& out@[j]->id == (old(self)@.head + j) % 256
                    &&& out@[j]->packets@ == old(self)@.buckets[(old(self)@.head + j) % 256]
                    &&& old(self)@.buckets[(old(self)@.head + j) % 256].len() >= old(self)@.min
                },
            old(self)@.buckets[(old(self)@.head + out@.len()) % 256].len() < old(self)@.min,
            final(self)@ == (ReblockState {
                buckets: emptied(
                    old(self)@.buckets,
                    old(self)@.head as int,
                    out@.len() as int,
                ),
                ignore: window_flags((old(self)@.head + out@.len()) % 256),
                head: ((old(self)@.head + out@.len()) % 256) as u8,
                reset: false,
                min: old(self)@.min,
            }),
    {
        let ghost st = self@;
        let mut out: Vec<Reassembled> = Vec::new();
        assert(self@.buckets =~~= emptied(st.buckets, st.head as int, 0));
        assert(self@.ignore == window_flags((st.head + 0) % 256));
        while self.buckets[self.head as usize].len() >= self.min_nb_packets
            invariant
                self.buckets@.len() == 256,
                self.ignore@.len() == 256,
                st.wf(),
                !st.reset,
                out@.len() <= 128,
                self@ == (ReblockState {
                    buckets: emptied(st.buckets, st.head as int, out@.len() as int),
                    ignore: window_flags((st.head + out@.len()) % 256),
                    head: ((st.head + out@.len()) % 256) as u8,
                    reset: false,
                    min: st.min,
                }),
                forall|j: int|
                    0 <= j < out@.len() ==> {
                        &&& (#[trigger] out@[j]) is Block
                        &&& out@[j]->id == (st.head + j) % 256
                        &&& out@[j]->packets@ == st.buckets[(st.head + j) % 256]
                        &&& st.buckets[(st.head + j) % 256].len() >= st.min
                    },
            ensures
                self@.buckets[self@.head as int].len() < st.min,
            decreases 128 - out@.len(),
        {
            let id: u8 = self.head;
            let ghost n = out@.len() as int;
            let ghost before = self@;
            proof {
                lemma_window_offsets(st.head as int, n);
                lemma_window_step(st, n);
            }
            let mut packets: Vec<Packet> = Vec::new();
            core::mem::swap(&mut packets, &mut self.buckets[id as usize]);
            assert(self@.buckets =~~= before.buckets.update(id as int, Seq::<Packet>::empty()));
            out.push(Reassembled::Block { id, packets });
            self.ignore[id as usize] = true;
            let opposite: usize = if id >= WINDOW_WIDTH {
                (id - WINDOW_WIDTH) as usize
            } else {
                (id + WINDOW_WIDTH) as usize
            };
            self.ignore[opposite] = false;
            assert(self@.ignore =~= before.ignore.update(id as int, true).update(
                opposite as int,
                false,
            ));
            // Packets of a block that enters the window mean that blocks were
            // lost. A block outside the window is never filled, so this is
            // not met from a well-formed state.
            if !self.buckets[opposite].is_empty() {
                out.push(Reassembled::Error);
                self.reset = true;
                break;
            }
            self.head = if id == 255 {
                0
            } else {
                id + 1
            };
        }
        proof {
            lemma_window_step(st, out@.len() as int);
        }
        out
    }

    /// Takes a batch of datagrams in. After a reset the first of them opens a
    /// new window at its block. Each packet is kept where its block lies in
    /// the window, and dropped elsewhere. Then the blocks that hold enough
    /// packets are handed out, from the head of the window on and in the
    /// order of their numbers, and the window moves past them. A batch
    /// without datagrams changes nothing.
    pub fn on_datagrams(&mut self, batch: Vec<Packet>) -> (out: Vec<Reassembled>)
        requires
            old(self)@.wf(),
            forall|i: int| 0 <= i < batch@.len() ==> (#[trigger] batch@[i]).wf(),
        ensures
            final(self)@.wf(),
            final(self)@ == old(self)@.after(batch@),
            out@.len() == old(self)@.forwarded(batch@).len(),
            forall|j: int|
                0 <= j < out@.len() ==> (#[trigger] out@[j]) is Block && out@[j]->id == old(
                    self,
                )@.forwarded(batch@)[j],
            batch@.len() == 0 ==> final(self)@ == old(self)@ && out@.len() == 0,
            batch@.len() > 0 ==> {
                let st = old(self)@.started(batch@);
                let filled = st.filled(batch@);
                &&& out@.len() <= 128
                &&& forall|j: int|
                    0 <= j < out@.len() ==> {
                        &&& (#[trigger] out@[j]) is Block
                        &&& out@[j]->id == (st.head + j) % 256
                        &&& out@[j]->packets@ == filled[(st.head + j) % 256]
                        &&& filled[(st.head + j) % 256].len() >= st.min
                    }
                &&& filled[(st.head + out@.len()) % 256].len() < st.min
                &&& final(self)@ == (ReblockState {
                    buckets: emptied(filled, st.head as int, out@.len() as int),
                    ignore: window_flags((st.head + out@.len()) % 256),
                    head: ((st.head + out@.len()) % 256) as u8,
                    reset: false,
                    min: st.min,
                })
            },
    {
        if batch.len() == 0 {
            return Vec::new();
        }
        assert(self.buckets@.len() == self@.buckets.len());
        if self.reset {
            let first: u8 = batch[0].block_id();
            self.restart(first);
        }
        proof {
            lemma_filled_wf(self@, batch@);
        }
        let ghost st = self@;
        self.store_all(batch);
        let out = self.advance();
        proof {
            let filled = st.filled(batch@);
            assert forall|j: int| 0 <= j < out@.len() implies (#[trigger] filled[(st.head + j)
                % 256]).len() >= st.min by {
                assert(out@[j] is Block);
            }
            lemma_ready(filled, st.head as int, st.min, 128, out@.len() as int);
        }
        out
    }

    /// Whether packets of block `id` are dropped on arrival.
    pub fn is_ignored(&self, id: u8) -> (b: bool)
        requires
            self@.wf(),
        ensures
            b == self@.ignore[id as int],
    {
        self.ignore[id as usize]
    }
}

/// Where the head and its opposite lie once `n` blocks have left a window
/// that started at `h`.
proof fn lemma_window_offsets(h: int, n: int)
    requires
        0 <= h < 256,
        0 <= n <= 128,
    ensures
        0 <= (h + n) % 256 < 256,
        ((h + n) % 256 - h) % 256 == n,
        n < 128 ==> ((h + n + 128) % 256 - h) % 256 == n + 128,
        n < 128 ==> (h + n + 128) % 256 == if (h + n) % 256 >= 128 {
            (h + n) % 256 - 128
        } else {
            (h + n) % 256 + 128
        },
        (h + n + 1) % 256 == if (h + n) % 256 == 255 {
            0
        } else {
            (h + n) % 256 + 1
        },
{
}

/// What one step of the window does, once `n` blocks have left a window
/// that started at the head of `st`: the head holds what it held and is
/// accepted, its opposite is ignored and empty, and with the head emptied
/// and ignored and the opposite accepted the window starts one further.
#[verifier::rlimit(50)]
proof fn lemma_window_step(st: ReblockState, n: int)
    requires
        st.wf(),
        !st.reset,
        0 <= n <= 128,
    ensures
        emptied(st.buckets, st.head as int, n)[(st.head + n) % 256] == st.buckets[(st.head + n)
            % 256],
        st.buckets[(st.head + n) % 256].len() > 0 ==> n < 128,
        n < 128 ==> emptied(st.buckets, st.head as int, n)[(st.head + n + 128) % 256].len() == 0,
        n < 128 ==> emptied(st.buckets, st.head as int, n).update(
            (st.head + n) % 256,
            Seq::<Packet>::empty(),
        ) == emptied(st.buckets, st.head as int, n + 1),
        n < 128 ==> window_flags((st.head + n) % 256).update((st.head + n) % 256, true).update(
            (st.head + n + 128) % 256,
            false,
        ) == window_flags((st.head + n + 1) % 256),
{
    let h = st.head as int;
    let id = (h + n) % 256;
    lemma_window_offsets(h, n);
    assert(st.ignore[id] == !in_window(h, id));
    if n < 128 {
        let opposite = (h + n + 128) % 256;
        assert(st.ignore[opposite] == !in_window(h, opposite));
        assert(st.buckets[opposite].len() == 0);
        assert forall|i: int| 0 <= i < 256 implies #[trigger] emptied(st.buckets, h, n).update(
            id,
            Seq::<Packet>::empty(),
        )[i] == emptied(st.buckets, h, n + 1)[i] by {
            if i != id {
                assert(((i - h) % 256 < n) == ((i - h) % 256 < n + 1));
            }
        }
        assert(emptied(st.buckets, h, n).update(id, Seq::<Packet>::empty()) =~= emptied(
            st.buckets,
            h,
            n + 1,
        ));
        assert forall|i: int| 0 <= i < 256 implies #[trigger] window_flags(id).update(
            id,
            true,
        ).update(opposite, false)[i] == window_flags((h + n + 1) % 256)[i] by {
            let next = (h + n + 1) % 256;
            if i == opposite {
                assert((i - next) % 256 == 127);
            } else if i == id {
                assert((i - next) % 256 == 255);
            } else {
                assert(in_window(id, i) == in_window(next, i));
            }
        }
        assert(window_flags(id).update(id, true).update(opposite, false) =~= window_flags(
            (h + n + 1) % 256,
        ));
    }
}

/// The packets of a batch that belong to a block are packets of that batch.
proof fn lemma_of_block_members(batch: Seq<Packet>, id: int)
    requires
        forall|i: int| 0 <= i < batch.len() ==> (#[trigger] batch[i]).wf(),
    ensures
        forall|j: int|
            0 <= j < of_block(batch, id).len() ==> (#[trigger] of_block(batch, id)[j]).wf()
                && of_block(batch, id)[j].spec_block_id() == id,
{
    let pred = |p: Packet| p.spec_block_id() == id;
    assert forall|j: int| 0 <= j < of_block(batch, id).len() implies (#[trigger] of_block(
        batch,
        id,
    )[j]).wf() && of_block(batch, id)[j].spec_block_id() == id by {
        let e = of_block(batch, id)[j];
        batch.lemma_filter_pred(pred, j);
        assert(batch.filter(pred).contains(e));
        batch.lemma_filter_contains_rev(pred, e);
        let k = choose|k: int| 0 <= k < batch.len() && batch[k] == e;
        assert(batch[k].wf());
    }
}

/// Taking a batch in keeps the state well formed.
proof fn lemma_filled_wf(st: ReblockState, batch: Seq<Packet>)
    requires
        st.wf(),
        forall|i: int| 0 <= i < batch.len() ==> (#[trigger] batch[i]).wf(),
    ensures
        (ReblockState { buckets: st.filled(batch), ..st }).wf(),
{
    let after = ReblockState { buckets: st.filled(batch), ..st };
    assert forall|i: int, j: int| 0 <= i < 256 && 0 <= j < after.buckets[i].len() implies (
    #[trigger] after.buckets[i][j]).wf() && after.buckets[i][j].spec_block_id() == i by {
        lemma_of_block_members(batch, i);
        if !st.ignore[i] && j >= st.buckets[i].len() {
            assert(after.buckets[i][j] == of_block(batch, i)[j - st.buckets[i].len()]);
        }
    }
}

/// A batch without packets leaves the buckets as they are.
proof fn lemma_filled_nothing(st: ReblockState)
    requires
        st.buckets.len() == 256,
    ensures
        st.filled(Seq::<Packet>::empty()) == st.buckets,
        forall|batch: Seq<Packet>| #[trigger] batch.subrange(0, 0) == Seq::<Packet>::empty(),
{
    reveal(Seq::filter);
    assert forall|i: int| 0 <= i < 256 implies st.filled(Seq::<Packet>::empty())[i]
        == st.buckets[i] by {
        assert(of_block(Seq::<Packet>::empty(), i) =~= Seq::<Packet>::empty());
        assert(st.buckets[i] + Seq::<Packet>::empty() =~= st.buckets[i]);
    }
    assert(st.filled(Seq::<Packet>::empty()) =~= st.buckets);
    assert forall|batch: Seq<Packet>| #[trigger]
        batch.subrange(0, 0) == Seq::<Packet>::empty() by {
        assert(batch.subrange(0, 0) =~= Seq::<Packet>::empty());
    }
}

/// Taking one more packet of a batch in changes the bucket of its block
/// only, and that one only where the block is accepted.
proof fn lemma_filled_one_more(st: ReblockState, batch: Seq<Packet>, k: int)
    requires
        st.buckets.len() == 256,
        st.ignore.len() == 256,
        0 <= k < batch.len(),
    ensures
        st.filled(batch.subrange(0, k + 1)) == if st.ignore[batch[k].spec_block_id() as int] {
            st.filled(batch.subrange(0, k))
        } else {
            st.filled(batch.subrange(0, k)).update(
                batch[k].spec_block_id() as int,
                st.filled(batch.subrange(0, k))[batch[k].spec_block_id() as int].push(batch[k]),
            )
        },
{
    let before = batch.subrange(0, k);
    let after = batch.subrange(0, k + 1);
    let p = batch[k];
    let id = p.spec_block_id() as int;
    assert(after =~= before.push(p));
    assert forall|i: int| 0 <= i < 256 implies of_block(after, i) == if i == id {
        of_block(before, i).push(p)
    } else {
        of_block(before, i)
    } by {
        before.lemma_filter_push(p, |q: Packet| q.spec_block_id() == i);
    }
    if st.ignore[id] {
        assert(st.filled(after) =~= st.filled(before));
    } else {
        assert((st.buckets[id] + of_block(before, id)).push(p) =~= st.buckets[id] + of_block(
            before,
            id,
        ).push(p));
        assert(st.filled(after) =~= st.filled(before).update(
            id,
            st.filled(before)[id].push(p),
        ));
    }
}

/// A bucket outside the window is never filled, so a timeout never finds
/// an ignored block number that holds packets.
pub proof fn lemma_never_damaged(state: ReblockState)
    requires
        state.wf(),
    ensures
        !state.damaged(),
{
}

/// The packets kept by a test are, as a bag, those of the bag that pass it.
proof fn lemma_filter_to_multiset(packets: Seq<Packet>, pred: spec_fn(Packet) -> bool)
    ensures
        packets.filter(pred).to_multiset() == packets.to_multiset().filter(pred),
    decreases packets.len(),
{
    broadcast use vstd::multiset::group_multiset_axioms;

    if packets.len() == 0 {
        reveal(Seq::filter);
        assert(packets.filter(pred) =~= packets);
        packets.to_multiset_ensures();
        assert(packets.to_multiset().len() == 0);
        assert(packets.to_multiset() =~= packets.to_multiset().filter(pred));
    } else {
        let rest = packets.drop_last();
        let last = packets.last();
        lemma_filter_to_multiset(rest, pred);
        assert(packets =~= rest.push(last));
        rest.lemma_filter_push(last, pred);
        vstd::seq_lib::to_multiset_build(rest, last);
        if pred(last) {
            vstd::seq_lib::to_multiset_build(rest.filter(pred), last);
        }
        assert(packets.filter(pred).to_multiset() =~= packets.to_multiset().filter(pred));
    }
}

/// Which packets are held for a block, and so whether the block is ready
/// to leave, does not depend on the order in which the packets of a batch
/// arrived: two batches of the same packets fill every bucket alike.
pub proof fn lemma_arrival_order(st: ReblockState, first: Seq<Packet>, second: Seq<Packet>, id: int)
    requires
        st.wf(),
        0 <= id < 256,
        first.to_multiset() == second.to_multiset(),
    ensures
        of_block(first, id).to_multiset() == of_block(second, id).to_multiset(),
        st.filled(first)[id].len() == st.filled(second)[id].len(),
{
    let pred = |p: Packet| p.spec_block_id() == id;
    lemma_filter_to_multiset(first, pred);
    lemma_filter_to_multiset(second, pred);
    of_block(first, id).to_multiset_ensures();
    of_block(second, id).to_multiset_ensures();
}

/// Where blocks in a row are ready and the next one is not, or the limit
/// is reached, that many blocks are ready.
proof fn lemma_ready(buckets: Seq<Seq<Packet>>, head: int, min: nat, limit: nat, count: int)
    requires
        0 <= head,
        0 <= count <= limit,
        forall|j: int| 0 <= j < count ==> (#[trigger] buckets[(head + j) % 256]).len() >= min,
        count == limit || buckets[(head + count) % 256].len() < min,
    ensures
        ready_from(buckets, head, min, limit) == count,
    decreases count,
{
    if count > 0 {
        assert(buckets[(head + 0) % 256].len() >= min);
        assert forall|j: int| 0 <= j < count - 1 implies (#[trigger] buckets[(head + 1 + j)
            % 256]).len() >= min by {
            assert(buckets[(head + (j + 1)) % 256].len() >= min);
        }
        lemma_ready(buckets, head + 1, min, (limit - 1) as nat, count - 1);
    }
}

/// The blocks counted as ready are ready, they are no more than the limit,
/// and the block behind them is not ready unless the limit is reached.
proof fn lemma_ready_means(buckets: Seq<Seq<Packet>>, head: int, min: nat, limit: nat)
    requires
        0 <= head,
    ensures
        ready_from(buckets, head, min, limit) <= limit,
        forall|j: int|
            0 <= j < ready_from(buckets, head, min, limit) ==> (#[trigger] buckets[(head + j)
                % 256]).len() >= min,
        ready_from(buckets, head, min, limit) == limit || buckets[(head + ready_from(
            buckets,
            head,
            min,
            limit,
        )) % 256].len() < min,
    decreases limit,
{
    if limit > 0 && buckets[head % 256].len() >= min {
        lemma_ready_means(buckets, head + 1, min, (limit - 1) as nat);
        let rest = ready_from(buckets, head + 1, min, (limit - 1) as nat);
        assert forall|j: int| 0 <= j < 1 + rest implies (#[trigger] buckets[(head + j)
            % 256]).len() >= min by {
            if j > 0 {
                assert(buckets[(head + 1 + (j - 1)) % 256].len() >= min);
            }
        }
        assert((head + 1 + rest) % 256 == (head + (1 + rest)) % 256);
    }
}

/// A block that the window ignores once `count` blocks have left either has
/// left or was ignored before.
proof fn lemma_window_shift(head: int, count: int, id: int)
    requires
        0 <= head < 256,
        0 <= count <= 128,
        0 <= id < 256,
    ensures
        !in_window((head + count) % 256, id) ==> (id - head) % 256 < count || !in_window(head, id),
{
}

/// Taking a batch in keeps the stage well formed and out of reset, moves
/// the head past the blocks that leave, and lets them leave in the order of
/// their numbers.
#[verifier::rlimit(50)]
proof fn lemma_after(st: ReblockState, batch: Seq<Packet>)
    requires
        st.wf(),
        forall|i: int| 0 <= i < batch.len() ==> (#[trigger] batch[i]).wf(),
    ensures
        st.after(batch).wf(),
        st.after(batch).min == st.min,
        batch.len() > 0 ==> !st.after(batch).reset,
        st.forwarded(batch).len() <= 128,
        batch.len() == 0 ==> st.after(batch) == st && st.forwarded(batch).len() == 0,
        batch.len() > 0 ==> st.after(batch).head == (st.started(batch).head + st.forwarded(
            batch,
        ).len()) % 256,
        forall|j: int|
            0 <= j < st.forwarded(batch).len() ==> #[trigger] st.forwarded(batch)[j] == (
            st.started(batch).head + j) % 256,
{
    if batch.len() > 0 {
        let s0 = st.started(batch);
        assert(s0.wf()) by {
            if st.reset {
                assert(s0.buckets.len() == 256);
            }
        }
        let filled = s0.filled(batch);
        let h = s0.head as int;
        lemma_filled_wf(s0, batch);
        lemma_ready_means(filled, h, s0.min, 128);
        let count = st.ready(batch) as int;
        let next = st.after(batch);
        assert forall|i: int| 0 <= i < 256 && next.ignore[i] implies (#[trigger] next.buckets[i]).len()
            == 0 by {
            lemma_window_shift(h, count, i);
            if (i - h) % 256 >= count {
                assert(s0.ignore[i] == !in_window(h, i));
                assert(filled[i] == s0.buckets[i]);
            }
        }
        assert forall|i: int, j: int| 0 <= i < 256 && 0 <= j < next.buckets[i].len() implies (
        #[trigger] next.buckets[i][j]).wf() && next.buckets[i][j].spec_block_id() == i by {
            assert(next.buckets[i] == filled[i]);
            assert((ReblockState { buckets: filled, ..s0 }).buckets[i][j].wf());
        }
    }
}

/// The state of the stage after a run of batches that arrive without a
/// silence between them.
pub open spec fn run_state(st: ReblockState, batches: Seq<Seq<Packet>>) -> ReblockState
    decreases batches.len(),
{
    if batches.len() == 0 {
        st
    } else {
        run_state(st, batches.drop_last()).after(batches.last())
    }
}

/// The numbers of the blocks that leave during a run of batches, in the
/// order in which they leave.
pub open spec fn run_forwarded(st: ReblockState, batches: Seq<Seq<Packet>>) -> Seq<u8>
    decreases batches.len(),
{
    if batches.len() == 0 {
        Seq::<u8>::empty()
    } else {
        run_forwarded(st, batches.drop_last()) + run_state(st, batches.drop_last()).forwarded(
            batches.last(),
        )
    }
}

/// Every packet of every batch holds a header.
pub open spec fn batches_wf(batches: Seq<Seq<Packet>>) -> bool {
    forall|i: int, j: int|
        0 <= i < batches.len() && 0 <= j < batches[i].len() ==> (#[trigger] batches[i][j]).wf()
}

/// Numbers that follow one another, behind numbers that follow one another,
/// follow one another.
proof fn lemma_order_goes_on(earlier: Seq<u8>, more: Seq<u8>, head: int, mid: int)
    requires
        0 <= head < 256,
        mid == (head + earlier.len()) % 256,
        forall|j: int| 0 <= j < earlier.len() ==> #[trigger] earlier[j] == (head + j) % 256,
        forall|j: int| 0 <= j < more.len() ==> #[trigger] more[j] == (mid + j) % 256,
    ensures
        (mid + more.len()) % 256 == (head + (earlier + more).len()) % 256,
        forall|j: int|
            0 <= j < (earlier + more).len() ==> #[trigger] (earlier + more)[j] == (head + j) % 256,
{
    assert forall|j: int| 0 <= j < (earlier + more).len() implies #[trigger] (earlier + more)[j]
        == (head + j) % 256 by {
        if j >= earlier.len() {
            assert((earlier + more)[j] == more[j - earlier.len()]);
        }
    }
}

/// What one batch does to a stage that is out of reset: the stage stays
/// well formed and out of reset, and the blocks that leave follow one
/// another from the head of the window on.
proof fn lemma_after_in_order(st: ReblockState, batch: Seq<Packet>)
    requires
        st.wf(),
        !st.reset,
        forall|i: int| 0 <= i < batch.len() ==> (#[trigger] batch[i]).wf(),
    ensures
        st.after(batch).wf(),
        !st.after(batch).reset,
        st.after(batch).head == (st.head + st.forwarded(batch).len()) % 256,
        forall|j: int|
            0 <= j < st.forwarded(batch).len() ==> #[trigger] st.forwarded(batch)[j] == (st.head
                + j) % 256,
{
    lemma_after(st, batch);
    assert(st.started(batch) == st);
}

/// Blocks leave in the order of their numbers, whatever arrives and in
/// whatever order: during a run of batches without a silence between them,
/// the first block that leaves is the head of the window, every other one
/// has the number that follows the one before it, counting modulo 256, and
/// the head of the window is then the number that follows the last.
pub proof fn lemma_blocks_leave_in_order(st: ReblockState, batches: Seq<Seq<Packet>>)
    requires
        st.wf(),
        !st.reset,
        batches_wf(batches),
    ensures
        run_state(st, batches).wf(),
        !run_state(st, batches).reset,
        run_state(st, batches).head == (st.head + run_forwarded(st, batches).len()) % 256,
        forall|j: int|
            0 <= j < run_forwarded(st, batches).len() ==> #[trigger] run_forwarded(st, batches)[j]
                == (st.head + j) % 256,
    decreases batches.len(),
{
    if batches.len() > 0 {
        let before = batches.drop_last();
        let batch = batches.last();
        lemma_batches_wf(batches);
        lemma_blocks_leave_in_order(st, before);
        let mid = run_state(st, before);
        lemma_after_in_order(mid, batch);
        lemma_order_goes_on(
            run_forwarded(st, before),
            mid.forwarded(batch),
            st.head as int,
            mid.head as int,
        );
    }
}

/// A new window is well formed.
proof fn lemma_fresh_wf(head: u8, min: nat)
    requires
        min >= 1,
    ensures
        ReblockState::fresh(head, min).wf(),
{
    let opened = ReblockState::fresh(head, min);
    assert(opened.buckets.len() == 256);
    assert(opened.ignore.len() == 256);
}

/// After a reset a run of batches goes as it does from the window that the
/// first datagram opens.
proof fn lemma_run_from_opened(st: ReblockState, batches: Seq<Seq<Packet>>)
    requires
        st.reset,
        batches.len() > 0,
        batches[0].len() > 0,
    ensures
        run_state(st, batches) == run_state(
            ReblockState::fresh(batches[0][0].spec_block_id(), st.min),
            batches,
        ),
        run_forwarded(st, batches) == run_forwarded(
            ReblockState::fresh(batches[0][0].spec_block_id(), st.min),
            batches,
        ),
    decreases batches.len(),
{
    let opened = ReblockState::fresh(batches[0][0].spec_block_id(), st.min);
    let before = batches.drop_last();
    let batch = batches.last();
    if batches.len() == 1 {
        assert(run_state(st, before) == st);
        assert(run_state(opened, before) == opened);
        assert(run_forwarded(st, before) == run_forwarded(opened, before));
        assert(batch == batches[0]);
        assert(st.started(batch) == opened);
        assert(opened.started(batch) == opened);
    } else {
        assert(before[0] == batches[0]);
        lemma_run_from_opened(st, before);
    }
}

/// After a reset the window opens at the block of the first datagram: the
/// blocks that leave during a run of batches are that block and those that
/// follow it, in the order of their numbers.
pub proof fn lemma_blocks_leave_in_order_after_reset(
    st: ReblockState,
    batches: Seq<Seq<Packet>>,
)
    requires
        st.wf(),
        st.reset,
        batches_wf(batches),
        batches.len() > 0,
        batches[0].len() > 0,
    ensures
        run_state(st, batches).wf(),
        !run_state(st, batches).reset,
        run_state(st, batches).head == (batches[0][0].spec_block_id() + run_forwarded(
            st,
            batches,
        ).len()) % 256,
        forall|j: int|
            0 <= j < run_forwarded(st, batches).len() ==> #[trigger] run_forwarded(st, batches)[j]
                == (batches[0][0].spec_block_id() + j) % 256,
{
    let opened = ReblockState::fresh(batches[0][0].spec_block_id(), st.min);
    lemma_fresh_wf(batches[0][0].spec_block_id(), st.min);
    lemma_run_from_opened(st, batches);
    lemma_blocks_leave_in_order(opened, batches);
}

/// The packets of a run of batches, in the order of their arrival.
pub open spec fn arrived(batches: Seq<Seq<Packet>>) -> Seq<Packet>
    decreases batches.len(),
{
    if batches.len() == 0 {
        Seq::<Packet>::empty()
    } else {
        arrived(batches.drop_last()) + batches.last()
    }
}

/// The block at the head of the window is not ready to leave.
pub open spec fn head_waits(st: ReblockState) -> bool {
    st.buckets[st.head as int].len() < st.min
}

/// A block of the window that does not leave with a batch holds, after the
/// batch, what it held and the packets of the batch that belong to it.
proof fn lemma_after_keeps(st: ReblockState, batch: Seq<Packet>, id: int)
    requires
        st.wf(),
        !st.reset,
        forall|i: int| 0 <= i < batch.len() ==> (#[trigger] batch[i]).wf(),
        0 <= id < 256,
        st.forwarded(batch).len() <= (id - st.head) % 256 < 128,
    ensures
        st.after(batch).buckets[id] == st.buckets[id] + of_block(batch, id),
{
    if batch.len() == 0 {
        reveal(Seq::filter);
        assert(of_block(batch, id) =~= Seq::<Packet>::empty());
        assert(st.buckets[id] + of_block(batch, id) =~= st.buckets[id]);
    } else {
        assert(st.started(batch) == st);
        assert(st.ignore[id] == !in_window(st.head as int, id));
    }
}

/// After a batch the block at the head of the window is not ready to leave.
proof fn lemma_after_head_waits(st: ReblockState, batch: Seq<Packet>)
    requires
        st.wf(),
        !st.reset,
        head_waits(st),
        forall|i: int| 0 <= i < batch.len() ==> (#[trigger] batch[i]).wf(),
    ensures
        head_waits(st.after(batch)),
{
    if batch.len() > 0 {
        assert(st.started(batch) == st);
        let filled = st.filled(batch);
        let h = st.head as int;
        lemma_ready_means(filled, h, st.min, 128);
        let count = st.ready(batch) as int;
        let next = (h + count) % 256;
        lemma_window_offsets(h, count);
        assert(st.after(batch).buckets[next] == filled[next]);
        if count == 128 {
            assert(st.ignore[next] == !in_window(h, next));
            assert(filled[next] == st.buckets[next]);
        }
    }
}

/// One more batch of a run: a block of the window that has not left holds
/// what it held at first and every packet that arrived for it.
proof fn lemma_run_step(
    first: Seq<Packet>,
    mid: ReblockState,
    before: Seq<Packet>,
    batch: Seq<Packet>,
    id: int,
)
    requires
        mid.wf(),
        !mid.reset,
        head_waits(mid),
        forall|i: int| 0 <= i < batch.len() ==> (#[trigger] batch[i]).wf(),
        0 <= id < 256,
        mid.forwarded(batch).len() <= (id - mid.head) % 256 < 128,
        mid.buckets[id] == first + of_block(before, id),
    ensures
        mid.after(batch).buckets[id] == first + of_block(before + batch, id),
        head_waits(mid.after(batch)),
{
    lemma_after_keeps(mid, batch, id);
    lemma_after_head_waits(mid, batch);
    Seq::filter_distributes_over_add(before, batch, |p: Packet| p.spec_block_id() == id);
    assert((first + of_block(before, id)) + of_block(batch, id) =~= first + (of_block(before, id)
        + of_block(batch, id)));
}

/// The last batch of a run holds headers, as do the batches before it.
proof fn lemma_batches_wf(batches: Seq<Seq<Packet>>)
    requires
        batches_wf(batches),
        batches.len() > 0,
    ensures
        batches_wf(batches.drop_last()),
        forall|j: int| 0 <= j < batches.last().len() ==> (#[trigger] batches.last()[j]).wf(),
{
    let before = batches.drop_last();
    assert forall|i: int, j: int| 0 <= i < before.len() && 0 <= j < before[i].len() implies (
    #[trigger] before[i][j]).wf() by {
        assert(batches[i][j].wf());
    }
    assert forall|j: int| 0 <= j < batches.last().len() implies (#[trigger] batches.last()[j]).wf() by {
        assert(batches[batches.len() - 1][j].wf());
    }
}

/// During a run of batches a block of the window that has not left holds
/// what it held at first and every packet of the run that belongs to it,
/// and the block at the head of the window is never ready to leave between
/// two batches.
#[verifier::rlimit(50)]
proof fn lemma_run_keeps(st: ReblockState, batches: Seq<Seq<Packet>>, id: int)
    requires
        st.wf(),
        !st.reset,
        head_waits(st),
        batches_wf(batches),
        0 <= id < 256,
        run_forwarded(st, batches).len() <= (id - st.head) % 256 < 128,
    ensures
        run_state(st, batches).buckets[id] == st.buckets[id] + of_block(arrived(batches), id),
        head_waits(run_state(st, batches)),
    decreases batches.len(),
{
    if batches.len() == 0 {
        reveal(Seq::filter);
        assert(of_block(arrived(batches), id) =~= Seq::<Packet>::empty());
        assert(st.buckets[id] + of_block(arrived(batches), id) =~= st.buckets[id]);
    } else {
        let before = batches.drop_last();
        let batch = batches.last();
        let mid = run_state(st, before);
        let earlier = run_forwarded(st, before).len() as int;
        let more = mid.forwarded(batch).len() as int;
        lemma_batches_wf(batches);
        assert(run_forwarded(st, batches).len() == earlier + more);
        lemma_run_keeps(st, before, id);
        assert(mid.wf() && !mid.reset && mid.head == (st.head + earlier) % 256) by {
            lemma_blocks_leave_in_order(st, before);
        }
        lemma_offset_moves(st.head as int, earlier, id);
        lemma_run_step(st.buckets[id], mid, arrived(before), batch, id);
    }
}

/// The place of a block in the window once `count` blocks have left.
proof fn lemma_offset_moves(head: int, count: int, id: int)
    requires
        0 <= head < 256,
        0 <= id < 256,
        0 <= count <= (id - head) % 256,
    ensures
        (id - (head + count) % 256) % 256 == (id - head) % 256 - count,
{
}

/// Where the datagrams of a whole window arrive, in whatever order and in
/// whatever batches, the whole window leaves: after a reset, with enough
/// packets among the arrivals for each of the 128 blocks from the block of
/// the first datagram on, these 128 blocks leave, each in its turn.
pub proof fn lemma_whole_window_leaves(st: ReblockState, batches: Seq<Seq<Packet>>)
    requires
        st.wf(),
        st.reset,
        batches_wf(batches),
        batches.len() > 0,
        batches[0].len() > 0,
        forall|j: int|
            0 <= j < 128 ==> (#[trigger] of_block(
                arrived(batches),
                (batches[0][0].spec_block_id() + j) % 256,
            )).len() >= st.min,
    ensures
        run_forwarded(st, batches).len() >= 128,
        forall|j: int|
            0 <= j < 128 ==> #[trigger] run_forwarded(st, batches)[j] == (
            batches[0][0].spec_block_id() + j) % 256,
{
    let h = batches[0][0].spec_block_id();
    let opened = ReblockState::fresh(h, st.min);
    lemma_fresh_wf(h, st.min);
    lemma_run_from_opened(st, batches);
    lemma_blocks_leave_in_order(opened, batches);
    let count = run_forwarded(opened, batches).len() as int;
    if count < 128 {
        lemma_head_is_ready(opened, batches, count);
    }
}

/// Where the run has let fewer blocks leave than the window holds, the
/// block at the head of the window waits, and holds every packet that
/// arrived for it.
proof fn lemma_head_is_ready(opened: ReblockState, batches: Seq<Seq<Packet>>, count: int)
    requires
        opened.wf(),
        !opened.reset,
        forall|i: int| 0 <= i < 256 ==> (#[trigger] opened.buckets[i]).len() == 0,
        batches_wf(batches),
        count == run_forwarded(opened, batches).len(),
        count < 128,
        run_state(opened, batches).head == (opened.head + count) % 256,
        of_block(arrived(batches), (opened.head + count) % 256).len() >= opened.min,
    ensures
        head_waits(run_state(opened, batches)),
        run_state(opened, batches).buckets[run_state(opened, batches).head as int].len()
            >= run_state(opened, batches).min,
{
    let id = (opened.head + count) % 256;
    lemma_window_offsets(opened.head as int, count);
    assert(head_waits(opened)) by {
        assert(opened.buckets[opened.head as int].len() == 0);
    }
    lemma_run_keeps(opened, batches, id);
    assert(opened.buckets[id].len() == 0);
    assert(opened.buckets[id] + of_block(arrived(batches), id) =~= of_block(
        arrived(batches),
        id,
    ));
    lemma_run_min(opened, batches);
}

/// A run of batches keeps the number of packets that makes a block ready.
proof fn lemma_run_min(st: ReblockState, batches: Seq<Seq<Packet>>)
    requires
        st.wf(),
        !st.reset,
        batches_wf(batches),
    ensures
        run_state(st, batches).min == st.min,
    decreases batches.len(),
{
    if batches.len() > 0 {
        lemma_batches_wf(batches);
        lemma_run_min(st, batches.drop_last());
        lemma_blocks_leave_in_order(st, batches.drop_last());
        lemma_after(run_state(st, batches.drop_last()), batches.last());
    }
}

} // verus!
