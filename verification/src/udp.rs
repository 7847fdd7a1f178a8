//! What the two ends of the UDP link decide: how datagrams are read and
//! written, one by one or in batches, and what a read has brought.

use crate::protocol::{packets_view, Packet};
use vstd::prelude::*;

verus! {

/// What one read of the socket brought.
pub enum Datagrams {
    /// One datagram.
    Single(Vec<u8>),
    /// The datagrams of one batched read, in the order of the batch.
    Multiple(Vec<Vec<u8>>),
}

/// How the socket is read or written.
#[derive(Clone, Copy, Debug, PartialEq, Eq, Structural)]
pub enum Mode {
    /// One datagram per call.
    Single,
    /// Up to so many datagrams per call.
    Batch(u32),
}

/// Several datagrams go with one call where a batch size above 1 is set.
pub fn mode(batch: Option<u32>) -> (m: Mode)
    ensures
        m == match batch {
            Some(n) if n > 1 => Mode::Batch(n),
            _ => Mode::Single,
        },
{
    match batch {
        Some(n) => if n > 1 {
            Mode::Batch(n)
        } else {
            Mode::Single
        },
        None => Mode::Single,
    }
}

/// Number of datagrams that go with the next batched call, where
/// `remaining` are left to send: a whole batch, or what is left of the last.
pub fn next_batch(remaining: usize, batch_size: u32) -> (n: usize)
    ensures
        n == if remaining <= batch_size {
            remaining as int
        } else {
            batch_size as int
        },
{
    if remaining as u64 <= batch_size as u64 {
        remaining
    } else {
        batch_size as usize
    }
}

/// Whether a call that was to send `expected` units sent them all. A short
/// send is an error, as is a failed one.
pub fn fully_sent(sent: isize, expected: usize) -> (ok: bool)
    ensures
        ok == (sent == expected),
{
    sent >= 0 && sent as usize == expected
}

/// A datagram is long enough to hold the header of a packet.
pub open spec fn holds_header(datagram: Seq<u8>) -> bool {
    datagram.len() >= 4
}

impl Datagrams {
    /// The bytes of the datagrams, in their order.
    pub open spec fn spec_bytes(&self) -> Seq<Seq<u8>> {
        match self {
            Datagrams::Single(datagram) => seq![datagram@],
            Datagrams::Multiple(datagrams) => datagrams@.map_values(|d: Vec<u8>| d@),
        }
    }

    /// The datagrams of the read as packets, in their order. A datagram too
    /// short to hold the header of a packet is left out.
    pub fn into_packets(self) -> (packets: Vec<Packet>)
        ensures
            packets_view(packets@) == self.spec_bytes().filter(|d: Seq<u8>| holds_header(d)),
            forall|i: int| 0 <= i < packets@.len() ==> (#[trigger] packets@[i]).wf(),
    {
        let ghost all = self.spec_bytes();
        let ghost keep = |d: Seq<u8>| holds_header(d);
        let mut packets: Vec<Packet> = Vec::new();
        proof {
            reveal(Seq::filter);
            assert(all.subrange(0, 0) =~= Seq::<Seq<u8>>::empty());
            assert(packets_view(packets@) =~= Seq::<Seq<u8>>::empty());
        }
        match self {
            Datagrams::Single(datagram) => {
                proof {
                    Seq::<Seq<u8>>::empty().lemma_filter_push(datagram@, keep);
                    assert(all =~= Seq::<Seq<u8>>::empty().push(datagram@));
                }
                match Packet::deserialize(datagram) {
                    Some(packet) => {
                        packets.push(packet);
                        assert(packets_view(packets@) =~= seq![packet@]);
                        assert(Seq::<Seq<u8>>::empty().push(packet@) =~= seq![packet@]);
                    },
                    None => {},
                }
            },
            Datagrams::Multiple(datagrams) => {
                for datagram in iter: datagrams.into_iter()
                    invariant
                        iter.seq() == datagrams@,
                        all == datagrams@.map_values(|d: Vec<u8>| d@),
                        keep == (|d: Seq<u8>| holds_header(d)),
                        packets_view(packets@) == all.subrange(0, iter.index() as int).filter(keep),
                        forall|i: int| 0 <= i < packets@.len() ==> (#[trigger] packets@[i]).wf(),
                {
                    let ghost k = iter.index() as int;
                    proof {
                        assert(all.subrange(0, k + 1) =~= all.subrange(0, k).push(datagram@));
                        all.subrange(0, k).lemma_filter_push(datagram@, keep);
                    }
                    let ghost before = packets@;
                    match Packet::deserialize(datagram) {
                        Some(packet) => {
                            packets.push(packet);
                            assert(packets_view(packets@) =~= packets_view(before).push(packet@));
                        },
                        None => {},
                    }
                }
                assert(all.subrange(0, all.len() as int) =~= all);
            },
        }
        packets
    }
}

} // verus!
