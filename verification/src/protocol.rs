//! Block framing of the diode protocol.
//!
//! A block is a fixed-length byte array:
//!
//! ```text
//! <-- 4 bytes -> <-- 1 byte --> <-- 4 bytes -->
//! --------------+--------------+---------------+--------------------------------------
//! |  client_id  |  block_type  |  data_length  |  payload = data + optional padding  |
//! --------------+--------------+---------------+--------------------------------------
//! ```
//!
//! 4-byte values are encoded in little-endian byte order.

use vstd::prelude::*;

verus! {

/// Identifier of one transfer through the diode.
pub type ClientId = u32;

/// The identifier that follows `id`: the next number, and 0 after the last.
pub open spec fn next_client_id(id: ClientId) -> ClientId {
    if id == u32::MAX {
        0u32
    } else {
        (id + 1) as u32
    }
}

/// Hands out the identifier of a new client, and moves the counter to the
/// next one. The counter goes round after the last identifier.
pub fn new_client_id(counter: &mut ClientId) -> (id: ClientId)
    ensures
        id == *old(counter),
        *final(counter) == next_client_id(*old(counter)),
{
    let id: ClientId = *counter;
    *counter = if id == u32::MAX {
        0
    } else {
        id + 1
    };
    id
}

/// Number of bytes in front of the payload of a block.
pub const SERIALIZE_OVERHEAD: usize = 9;

pub const ID_HEARTBEAT: u8 = 0x00;

pub const ID_START: u8 = 0x01;

pub const ID_DATA: u8 = 0x02;

pub const ID_ABORT: u8 = 0x03;

pub const ID_END: u8 = 0x04;

/// The five kinds of block.
#[derive(Clone, Copy, Debug, PartialEq, Eq, Structural)]
pub enum BlockType {
    Heartbeat,
    Start,
    Data,
    Abort,
    End,
}

impl BlockType {
    /// The byte that stands for this kind on the wire.
    pub open spec fn spec_serialized(self) -> u8 {
        match self {
            BlockType::Heartbeat => 0u8,
            BlockType::Start => 1u8,
            BlockType::Data => 2u8,
            BlockType::Abort => 3u8,
            BlockType::End => 4u8,
        }
    }

    /// The kind that a wire byte stands for, if any.
    pub open spec fn spec_from_byte(b: u8) -> Option<BlockType> {
        if b == 0 {
            Some(BlockType::Heartbeat)
        } else if b == 1 {
            Some(BlockType::Start)
        } else if b == 2 {
            Some(BlockType::Data)
        } else if b == 3 {
            Some(BlockType::Abort)
        } else if b == 4 {
            Some(BlockType::End)
        } else {
            None
        }
    }

    pub fn serialized(self) -> (b: u8)
        ensures
            b == self.spec_serialized(),
            BlockType::spec_from_byte(b) == Some(self),
    {
        match self {
            BlockType::Heartbeat => ID_HEARTBEAT,
            BlockType::Start => ID_START,
            BlockType::Data => ID_DATA,
            BlockType::Abort => ID_ABORT,
            BlockType::End => ID_END,
        }
    }

    /// Name of the kind, as it is printed.
    pub fn name(self) -> (s: &'static str)
        ensures
            s@ == self.spec_name(),
    {
        proof {
            reveal_strlit("Heartbeat");
            reveal_strlit("Start");
            reveal_strlit("Data");
            reveal_strlit("Abort");
            reveal_strlit("End");
        }
        match self {
            BlockType::Heartbeat => "Heartbeat",
            BlockType::Start => "Start",
            BlockType::Data => "Data",
            BlockType::Abort => "Abort",
            BlockType::End => "End",
        }
    }

    pub open spec fn spec_name(self) -> Seq<char> {
        match self {
            BlockType::Heartbeat => "Heartbeat"@,
            BlockType::Start => "Start"@,
            BlockType::Data => "Data"@,
            BlockType::Abort => "Abort"@,
            BlockType::End => "End"@,
        }
    }
}

/// Which input made a construction fail.
#[derive(Clone, Copy, Debug, PartialEq, Eq, Structural)]
pub enum Parameter {
    /// The MTU leaves no room for a packet of at least 8 bytes.
    Mtu,
    /// The block size gives no symbol, or more symbols than one source block can hold.
    BlockSize,
    /// The repair percentage gives more repair packets than 16 bits can count.
    RepairPercentage,
    /// The block length leaves no room for the header.
    BlockLength,
    /// The payload is longer than a block can carry, or the kind carries none.
    Payload,
    /// A heartbeat names a client.
    ClientId,
}

/// Errors of the protocol layer.
#[derive(Clone, Copy, Debug, PartialEq, Eq, Structural)]
pub enum Error {
    /// A value handed to a constructor cannot be used.
    InvalidParameter(Parameter),
    /// The kind byte of a block is none of the five known ones, or is missing.
    InvalidBlockType(Option<u8>),
}

/// Size of the IP and UDP headers in front of each datagram.
pub const PACKET_HEADER_SIZE: u16 = 28;

/// Packet payloads are cut to a multiple of this many bytes.
pub const RAPTORQ_ALIGNMENT: u16 = 8;

/// Size of the header in front of each encoded symbol.
pub const RAPTORQ_HEADER_SIZE: u16 = 4;

/// Largest number of symbols that one source block can hold.
pub const MAX_SOURCE_SYMBOLS: u16 = 56403;

/// One datagram of the diode link: a 4-byte header, whose first byte is the
/// number of the block, and one encoded symbol.
pub struct Packet {
    bytes: Vec<u8>,
}

impl View for Packet {
    type V = Seq<u8>;

    closed spec fn view(&self) -> Seq<u8> {
        self.bytes@
    }
}

/// The bytes of each packet of a list.
pub open spec fn packets_view(packets: Seq<Packet>) -> Seq<Seq<u8>> {
    packets.map_values(|p: Packet| p@)
}

impl Packet {
    /// A packet holds at least its header.
    pub open spec fn wf(&self) -> bool {
        self@.len() >= 4
    }

    /// Number of the block that the packet belongs to.
    pub open spec fn spec_block_id(&self) -> u8 {
        self@[0]
    }

    /// Number of the symbol within its block: bytes 1 to 3 of the header,
    /// most significant first.
    pub open spec fn spec_symbol_id(&self) -> int {
        self@[1] * 65536 + self@[2] * 256 + self@[3]
    }

    /// Takes a datagram as a packet, unless it is too short to hold a header.
    pub fn deserialize(datagram: Vec<u8>) -> (r: Option<Packet>)
        ensures
            r is Some <==> datagram@.len() >= 4,
            r is Some ==> r->0@ == datagram@ && r->0.wf(),
    {
        if datagram.len() >= 4 {
            Some(Packet { bytes: datagram })
        } else {
            None
        }
    }

    pub fn block_id(&self) -> (id: u8)
        requires
            self.wf(),
        ensures
            id == self.spec_block_id(),
    {
        self.bytes[0]
    }

    pub fn symbol_id(&self) -> (id: u32)
        requires
            self.wf(),
        ensures
            id == self.spec_symbol_id(),
    {
        let high: u32 = self.bytes[1] as u32;
        let middle: u32 = self.bytes[2] as u32;
        let low: u32 = self.bytes[3] as u32;
        high * 65536 + middle * 256 + low
    }

    /// The datagram that carries this packet.
    pub fn serialize(&self) -> (bytes: &[u8])
        ensures
            bytes@ == self@,
    {
        self.bytes.as_slice()
    }

    pub fn len(&self) -> (n: usize)
        ensures
            n == self@.len(),
    {
        self.bytes.len()
    }
}

/// The encoding plan of the `raptorq` crate: an opaque value, made once for
/// a number of symbols and handed back to the encoder for every block.
#[verifier::external_type_specification]
#[verifier::external_body]
pub struct ExSourceBlockEncodingPlan(raptorq::SourceBlockEncodingPlan);

/// The transmission parameters of the `raptorq` crate: an opaque value.
#[verifier::external_type_specification]
#[verifier::external_body]
pub struct ExObjectTransmissionInformation(raptorq::ObjectTransmissionInformation);

/// `raptorq::SourceBlockEncodingPlan::generate` builds the plan for blocks of
/// `symbol_count` symbols. It stops the program for more symbols than one
/// source block can hold; nothing is claimed of the plan itself.
pub assume_specification[ raptorq::SourceBlockEncodingPlan::generate ](
    symbol_count: u16,
) -> (plan: raptorq::SourceBlockEncodingPlan)
    requires
        1 <= symbol_count <= MAX_SOURCE_SYMBOLS,
;

/// `raptorq::ObjectTransmissionInformation::with_defaults` derives the
/// transmission parameters of an object of `transfer_length` bytes sent in
/// packets of at most `max_packet_size` bytes. It divides by the packet size
/// and by the number of packets, which it counts in 32 bits; nothing is
/// claimed of the parameters themselves.
pub assume_specification[ raptorq::ObjectTransmissionInformation::with_defaults ](
    transfer_length: u64,
    max_packet_size: u16,
) -> (config: raptorq::ObjectTransmissionInformation)
    requires
        1 <= transfer_length <= u32::MAX,
        max_packet_size >= 1,
;

/// The packets that the encoder makes of one block: a function of the block
/// number, the packet size, the numbers of source and repair symbols, and the
/// bytes of the block.
pub uninterp spec fn encoded_packets(
    block_id: u8,
    max_packet_size: u16,
    symbol_count: u16,
    nb_repair_packets: u16,
    data: Seq<u8>,
) -> Seq<Seq<u8>>;

/// What the decoder makes of a list of packets of one block: the bytes of the
/// block, or nothing where the packets do not suffice.
pub uninterp spec fn decoded_block(
    block_id: u8,
    max_packet_size: u16,
    symbol_count: u16,
    packets: Seq<Seq<u8>>,
) -> Option<Seq<u8>>;

/// Forward error correction parameters, computed once and then frozen.
///
/// The encoding plan and the transmission parameters are opaque values of the
/// `raptorq` crate. `new` is the only place where a value of this type is
/// built, so they are always the ones made for the numbers held beside them;
/// the encoder and the decoder rely on that.
pub struct RaptorQ {
    max_packet_size: u16,
    symbol_count: u16,
    transfer_length: u32,
    plan: raptorq::SourceBlockEncodingPlan,
    config: raptorq::ObjectTransmissionInformation,
    nb_repair_packets: u16,
}

impl RaptorQ {
    /// Payload of a packet for a given MTU: what the IP, UDP and symbol
    /// headers leave, rounded down to the alignment.
    pub open spec fn spec_max_packet_size(mtu: u16) -> int {
        let room = mtu - 28 - 4;
        room - room % 8
    }

    /// Number of source symbols of a block.
    pub open spec fn spec_symbol_count(mtu: u16, block_size: u32) -> int {
        block_size as int / Self::spec_max_packet_size(mtu)
    }

    /// Length in bytes of a block.
    pub open spec fn spec_transfer_length(mtu: u16, block_size: u32) -> int {
        Self::spec_max_packet_size(mtu) * Self::spec_symbol_count(mtu, block_size)
    }

    /// Number of repair packets of a block: as many as fit in the given
    /// percentage of its length.
    pub open spec fn spec_repair_count(mtu: u16, block_size: u32, repair_percentage: u32) -> int {
        (Self::spec_transfer_length(mtu, block_size) * repair_percentage / 100)
            / Self::spec_max_packet_size(mtu)
    }

    /// The first thing that is wrong with the three inputs, if any.
    pub open spec fn spec_rejected(mtu: u16, block_size: u32, repair_percentage: u32) -> Option<
        Parameter,
    > {
        if mtu < 40 {
            Some(Parameter::Mtu)
        } else if Self::spec_symbol_count(mtu, block_size) < 1 || Self::spec_symbol_count(
            mtu,
            block_size,
        ) > 56403 {
            Some(Parameter::BlockSize)
        } else if Self::spec_repair_count(mtu, block_size, repair_percentage) > 65535 {
            Some(Parameter::RepairPercentage)
        } else {
            None
        }
    }

    pub closed spec fn spec_packet_size(&self) -> u16 {
        self.max_packet_size
    }

    pub closed spec fn spec_min_nb_packets(&self) -> u16 {
        self.symbol_count
    }

    pub closed spec fn spec_block_size(&self) -> u32 {
        self.transfer_length
    }

    pub closed spec fn spec_nb_repair_packets(&self) -> u16 {
        self.nb_repair_packets
    }

    /// The numbers fit together: packets of a positive multiple of 8 bytes,
    /// at least one symbol and no more than a source block can hold, and a
    /// block of exactly that many packets.
    pub open spec fn wf(&self) -> bool {
        &&& self.spec_packet_size() >= 8
        &&& self.spec_packet_size() % 8 == 0
        &&& 1 <= self.spec_min_nb_packets() <= 56403
        &&& self.spec_block_size() == self.spec_packet_size() * self.spec_min_nb_packets()
    }

    /// Computes the parameters for a link of the given MTU, blocks of about
    /// `block_size` bytes and `repair_percentage` percent of repair data.
    pub fn new(mtu: u16, block_size: u32, repair_percentage: u32) -> (r: Result<RaptorQ, Error>)
        ensures
            match r {
                Ok(fec) => {
                    &&& Self::spec_rejected(mtu, block_size, repair_percentage) is None
                    &&& fec.wf()
                    &&& fec.spec_packet_size() == Self::spec_max_packet_size(mtu)
                    &&& fec.spec_min_nb_packets() == Self::spec_symbol_count(mtu, block_size)
                    &&& fec.spec_block_size() == Self::spec_transfer_length(mtu, block_size)
                    &&& fec.spec_nb_repair_packets() == Self::spec_repair_count(
                        mtu,
                        block_size,
                        repair_percentage,
                    )
                },
                Err(e) => {
                    &&& Self::spec_rejected(mtu, block_size, repair_percentage) is Some
                    &&& e == Error::InvalidParameter(
                        Self::spec_rejected(mtu, block_size, repair_percentage)->0,
                    )
                },
            },
    {
        if mtu < 40 {
            return Err(Error::InvalidParameter(Parameter::Mtu));
        }
        let room: u16 = mtu - PACKET_HEADER_SIZE - RAPTORQ_HEADER_SIZE;
        let max_packet_size: u16 = room - room % RAPTORQ_ALIGNMENT;
        let symbols: u32 = block_size / (max_packet_size as u32);
        if symbols < 1 || symbols > MAX_SOURCE_SYMBOLS as u32 {
            return Err(Error::InvalidParameter(Parameter::BlockSize));
        }
        let symbol_count: u16 = symbols as u16;
        assert((max_packet_size as int) * (block_size as int / max_packet_size as int)
            <= block_size as int) by (nonlinear_arith)
            requires
                max_packet_size > 0,
                block_size >= 0,
        ;
        assert((max_packet_size as int) * (symbols as int) >= 1) by (nonlinear_arith)
            requires
                max_packet_size >= 8,
                symbols >= 1,
        ;
        let transfer_length: u32 = (max_packet_size as u32) * symbols;
        assert((transfer_length as int) * (repair_percentage as int) <= 0xffff_ffff * 0xffff_ffff)
            by (nonlinear_arith)
            requires
                0 <= transfer_length <= 0xffff_ffff,
                0 <= repair_percentage <= 0xffff_ffff,
        ;
        let repair_bytes: u64 = (transfer_length as u64) * (repair_percentage as u64) / 100;
        let repair: u64 = repair_bytes / (max_packet_size as u64);
        if repair > 0xffff {
            return Err(Error::InvalidParameter(Parameter::RepairPercentage));
        }
        let nb_repair_packets: u16 = repair as u16;
        let plan = raptorq::SourceBlockEncodingPlan::generate(symbol_count);
        let config = raptorq::ObjectTransmissionInformation::with_defaults(
            transfer_length as u64,
            max_packet_size,
        );
        Ok(
            RaptorQ {
                max_packet_size,
                symbol_count,
                transfer_length,
                plan,
                config,
                nb_repair_packets,
            },
        )
    }

    /// Length in bytes of a block.
    pub fn block_size(&self) -> (n: u32)
        ensures
            n == self.spec_block_size(),
    {
        self.transfer_length
    }

    /// Number of packets that suffice to decode a block.
    pub fn min_nb_packets(&self) -> (n: u16)
        ensures
            n == self.spec_min_nb_packets(),
    {
        self.symbol_count
    }

    /// Number of packets sent for a block, repair packets included.
    pub fn nb_packets(&self) -> (n: u32)
        ensures
            n == self.spec_min_nb_packets() + self.spec_nb_repair_packets(),
    {
        self.symbol_count as u32 + self.nb_repair_packets as u32
    }

    /// Payload in bytes of one packet.
    pub fn max_packet_size(&self) -> (n: u16)
        ensures
            n == self.spec_packet_size(),
    {
        self.max_packet_size
    }

    /// Number of repair packets sent for a block.
    pub fn nb_repair_packets(&self) -> (n: u16)
        ensures
            n == self.spec_nb_repair_packets(),
    {
        self.nb_repair_packets
    }

    /// A symbol number that the encoder gives to a packet of a block: that
    /// of a source symbol, or that of one of the repair symbols.
    pub open spec fn numbers_a_symbol(&self, symbol_id: int) -> bool {
        ||| 0 <= symbol_id < self.spec_min_nb_packets()
        ||| self.spec_min_nb_packets() + self.spec_packet_size() <= symbol_id
            < self.spec_min_nb_packets() + self.spec_packet_size()
            + self.spec_nb_repair_packets()
    }

    /// A packet that the decoder of block `block_id` can take: a header and
    /// one whole symbol, with the number of that block and a symbol number
    /// that the encoder gives.
    pub open spec fn accepts(&self, block_id: u8, packet: Packet) -> bool {
        &&& packet@.len() == 4 + self.spec_packet_size()
        &&& packet@[0] == block_id
        &&& self.numbers_a_symbol(packet.spec_symbol_id())
    }

    /// The symbol number of the packet at place `i` among the packets of a
    /// block: the place itself for a source packet, and the place plus the
    /// size of a symbol for a repair packet.
    pub open spec fn spec_symbol_id_at(&self, i: int) -> int {
        if i < self.spec_min_nb_packets() {
            i
        } else {
            i + self.spec_packet_size()
        }
    }

    /// Every packet of the list can be taken by the decoder of `block_id`.
    pub open spec fn accepts_all(&self, block_id: u8, packets: Seq<Packet>) -> bool {
        forall|i: int| 0 <= i < packets.len() ==> self.accepts(block_id, #[trigger] packets[i])
    }

    /// What decoding gives: nothing where a packet has another length,
    /// another block number or a symbol number that the encoder does not
    /// give, else what the decoder makes of the packets.
    pub open spec fn spec_decode(&self, block_id: u8, packets: Seq<Packet>) -> Option<Seq<u8>> {
        if self.accepts_all(block_id, packets) {
            decoded_block(
                block_id,
                self.spec_packet_size(),
                self.spec_min_nb_packets(),
                packets_view(packets),
            )
        } else {
            None
        }
    }

    /// Calls `raptorq::SourceBlockEncoder::with_encoding_plan` on the block,
    /// then its `source_packets` and `repair_packets`, and serialises each
    /// packet with `raptorq::EncodingPacket::serialize`. The encoder stops the
    /// program unless the block holds exactly as many symbols as the plan was
    /// made for. Claimed: the packets are a function of the arguments; there
    /// is one per source symbol and one per repair symbol; each is a 4-byte
    /// header that starts with the block number, followed by one symbol; the
    /// source symbols are numbered from 0, and the repair symbols from the
    /// number of source symbols plus the size of a symbol.
    #[verifier::external_body]
    fn encode_packets(&self, block_id: u8, data: &[u8]) -> (packets: Vec<Packet>)
        requires
            self.wf(),
            data@.len() == self.spec_block_size(),
        ensures
            packets_view(packets@) == encoded_packets(
                block_id,
                self.spec_packet_size(),
                self.spec_min_nb_packets(),
                self.spec_nb_repair_packets(),
                data@,
            ),
            packets@.len() == self.spec_min_nb_packets() + self.spec_nb_repair_packets(),
            forall|i: int|
                0 <= i < packets@.len() ==> (#[trigger] packets@[i])@.len() == 4
                    + self.spec_packet_size() && packets@[i]@[0] == block_id,
            forall|i: int|
                0 <= i < packets@.len() ==> (#[trigger] packets@[i]).spec_symbol_id()
                    == self.spec_symbol_id_at(i),
    {
        let encoder = raptorq::SourceBlockEncoder::with_encoding_plan(
            block_id,
            &self.config,
            data,
            &self.plan,
        );
        let mut packets = encoder.source_packets();
        let first = u32::from(self.config.symbol_size());
        packets.extend(encoder.repair_packets(first, u32::from(self.nb_repair_packets)));
        packets.into_iter().map(|p| Packet { bytes: p.serialize() }).collect()
    }

    /// Calls `raptorq::SourceBlockDecoder::new` and its `decode` on packets
    /// read back with `raptorq::EncodingPacket::deserialize`. The decoder
    /// stops the program on a packet of another block or of another length.
    /// It also derives a 32-bit number from every symbol number and adds
    /// small constants to it without wrapping; for blocks of some sizes a
    /// symbol number above three millions takes that sum beyond 32 bits.
    /// The symbol numbers that the encoder gives stay below 200 000, where
    /// no block size comes near, so only those are admitted.
    /// Claimed: the outcome is a function of the arguments; a decoded block
    /// has the length of a block; fewer packets than there are source symbols
    /// decode to nothing.
    #[verifier::external_body]
    fn decode_packets(&self, block_id: u8, packets: Vec<Packet>) -> (block: Option<Vec<u8>>)
        requires
            self.wf(),
            self.accepts_all(block_id, packets@),
        ensures
            (match block {
                Some(bytes) => Some(bytes@),
                None => None,
            }) == decoded_block(
                block_id,
                self.spec_packet_size(),
                self.spec_min_nb_packets(),
                packets_view(packets@),
            ),
            block is Some ==> block->0@.len() == self.spec_block_size(),
            packets@.len() < self.spec_min_nb_packets() ==> block is None,
    {
        let mut decoder = raptorq::SourceBlockDecoder::new(
            block_id,
            &self.config,
            u64::from(self.transfer_length),
        );
        decoder.decode(packets.into_iter().map(|p| raptorq::EncodingPacket::deserialize(&p.bytes)))
    }

    /// Encodes one block into its packets, source packets first.
    pub fn encode(&self, block_id: u8, data: &[u8]) -> (packets: Vec<Packet>)
        requires
            self.wf(),
            data@.len() == self.spec_block_size(),
        ensures
            packets_view(packets@) == encoded_packets(
                block_id,
                self.spec_packet_size(),
                self.spec_min_nb_packets(),
                self.spec_nb_repair_packets(),
                data@,
            ),
            packets@.len() == self.spec_min_nb_packets() + self.spec_nb_repair_packets(),
            self.accepts_all(block_id, packets@),
            forall|i: int|
                0 <= i < packets@.len() ==> (#[trigger] packets@[i]).wf()
                    && packets@[i].spec_block_id() == block_id
                    && packets@[i].spec_symbol_id() == self.spec_symbol_id_at(i),
    {
        let packets = self.encode_packets(block_id, data);
        assert forall|i: int| 0 <= i < packets@.len() implies self.accepts(
            block_id,
            #[trigger] packets@[i],
        ) by {
            assert(packets@[i].spec_symbol_id() == self.spec_symbol_id_at(i));
        }
        packets
    }

    /// Tells whether a symbol number is one that the encoder gives.
    pub fn is_symbol_number(&self, symbol_id: u32) -> (ok: bool)
        ensures
            ok == self.numbers_a_symbol(symbol_id as int),
    {
        let sources: u32 = self.symbol_count as u32;
        let first_repair: u32 = sources + self.max_packet_size as u32;
        symbol_id < sources || (first_repair <= symbol_id && symbol_id < first_repair
            + self.nb_repair_packets as u32)
    }

    /// Tells whether every packet of the list has the length of a packet, the
    /// number of the block and a symbol number that the encoder gives.
    pub fn check_packets(&self, block_id: u8, packets: &Vec<Packet>) -> (ok: bool)
        ensures
            ok == self.accepts_all(block_id, packets@),
    {
        let expected: usize = 4 + self.max_packet_size as usize;
        let mut i: usize = 0;
        while i < packets.len()
            invariant
                i <= packets.len(),
                expected == 4 + self.spec_packet_size(),
                forall|j: int| 0 <= j < i ==> self.accepts(block_id, #[trigger] packets@[j]),
            decreases packets.len() - i,
        {
            let p = &packets[i];
            if p.bytes.len() != expected || p.bytes[0] != block_id {
                return false;
            }
            if !self.is_symbol_number(p.symbol_id()) {
                return false;
            }
            i += 1;
        }
        true
    }

    /// Decodes the packets gathered for one block. A list that holds a packet
    /// of another block, of another length or with a symbol number that the
    /// encoder does not give decodes to nothing, as does one that the decoder
    /// cannot solve.
    pub fn decode(&self, block_id: u8, packets: Vec<Packet>) -> (block: Option<Vec<u8>>)
        requires
            self.wf(),
        ensures
            (match block {
                Some(bytes) => Some(bytes@),
                None => None,
            }) == self.spec_decode(block_id, packets@),
            block is Some ==> block->0@.len() == self.spec_block_size(),
            packets@.len() < self.spec_min_nb_packets() ==> block is None,
    {
        if self.check_packets(block_id, &packets) {
            self.decode_packets(block_id, packets)
        } else {
            None
        }
    }
}

/// The number that four bytes of `s`, from index `at` on, stand for in
/// little-endian order.
pub open spec fn le32_at(s: Seq<u8>, at: int) -> int {
    s[at] + 256 * s[at + 1] + 65536 * s[at + 2] + 16777216 * s[at + 3]
}

/// The four bytes of `x`, least significant first.
pub open spec fn le32_bytes(x: u32) -> Seq<u8> {
    seq![
        (x % 256) as u8,
        ((x / 256) % 256) as u8,
        ((x / 65536) % 256) as u8,
        (x / 16777216) as u8,
    ]
}

/// The bytes of a block of `length` bytes: client, kind, payload length,
/// payload, and zeros up to the length.
pub open spec fn frame(kind: BlockType, client_id: ClientId, payload: Seq<u8>, length: nat) -> Seq<
    u8,
> {
    le32_bytes(client_id) + seq![kind.spec_serialized()] + le32_bytes(payload.len() as u32)
        + payload + Seq::new((length - 9 - payload.len()) as nat, |i: int| 0u8)
}

/// The client that the bytes of a block name.
pub open spec fn frame_client_id(s: Seq<u8>) -> int {
    le32_at(s, 0)
}

/// The kind that the bytes of a block name.
pub open spec fn frame_block_type(s: Seq<u8>) -> Result<BlockType, Error> {
    if s.len() > 4 {
        match BlockType::spec_from_byte(s[4]) {
            Some(kind) => Ok(kind),
            None => Err(Error::InvalidBlockType(Some(s[4]))),
        }
    } else {
        Err(Error::InvalidBlockType(None))
    }
}

/// The payload length that the bytes of a block name.
pub open spec fn frame_payload_len(s: Seq<u8>) -> int {
    le32_at(s, 5)
}

/// The payload that the bytes of a block carry.
pub open spec fn frame_payload(s: Seq<u8>) -> Seq<u8> {
    s.subrange(9, 9 + frame_payload_len(s))
}

/// The bytes hold a header, and the payload that it announces.
pub open spec fn frame_wf(s: Seq<u8>) -> bool {
    s.len() >= 9 && 9 + frame_payload_len(s) <= s.len()
}

/// Why a block of `length` bytes cannot be made of these parts, if it
/// cannot: the length has no room for the header, a heartbeat names a
/// client, or the payload is longer than the block has room for, longer than
/// 32 bits can count, or given to a kind that carries none.
pub open spec fn frame_rejected(
    kind: BlockType,
    client_id: ClientId,
    payload: Seq<u8>,
    length: nat,
) -> Option<Parameter> {
    if length < 9 {
        Some(Parameter::BlockLength)
    } else if kind == BlockType::Heartbeat && client_id != 0 {
        Some(Parameter::ClientId)
    } else if payload.len() > length - 9 || payload.len() > u32::MAX || (kind != BlockType::Data
        && payload.len() > 0) {
        Some(Parameter::Payload)
    } else {
        None
    }
}

/// Four bytes written in little-endian order read back as the number.
pub proof fn lemma_le32_round_trip(x: u32)
    ensures
        le32_bytes(x).len() == 4,
        le32_at(le32_bytes(x), 0) == x,
{
    let q1 = x / 256;
    let q2 = x / 65536;
    let q3 = x / 16777216;
    assert(q2 == q1 / 256);
    assert(q3 == q2 / 256);
    assert(x == x % 256 + 256 * q1);
    assert(q1 == q1 % 256 + 256 * q2);
    assert(q2 == q2 % 256 + 256 * q3);
    assert(q3 < 256);
}

/// Writing a block and reading it back gives its parts again, for every
/// kind, every client and every payload that the block has room for.
pub proof fn lemma_frame_round_trip(
    kind: BlockType,
    client_id: ClientId,
    payload: Seq<u8>,
    length: nat,
)
    requires
        9 + payload.len() <= length,
        payload.len() <= u32::MAX,
    ensures
        frame(kind, client_id, payload, length).len() == length,
        frame_wf(frame(kind, client_id, payload, length)),
        frame_client_id(frame(kind, client_id, payload, length)) == client_id,
        frame_block_type(frame(kind, client_id, payload, length)) == Ok::<BlockType, Error>(kind),
        frame_payload_len(frame(kind, client_id, payload, length)) == payload.len(),
        frame_payload(frame(kind, client_id, payload, length)) == payload,
{
    let s = frame(kind, client_id, payload, length);
    let n = payload.len() as u32;
    let id = le32_bytes(client_id);
    let len = le32_bytes(n);
    lemma_le32_round_trip(client_id);
    lemma_le32_round_trip(n);
    assert(s.len() == length);
    assert(s[0] == id[0] && s[1] == id[1] && s[2] == id[2] && s[3] == id[3]);
    assert(s[4] == kind.spec_serialized());
    assert(s[5] == len[0] && s[6] == len[1] && s[7] == len[2] && s[8] == len[3]);
    assert(le32_at(s, 0) == le32_at(id, 0));
    assert(le32_at(s, 5) == le32_at(len, 0));
    assert(frame_payload_len(s) == payload.len());
    assert(frame_payload(s) =~= payload);
}

/// One block of the protocol, as the bytes that travel.
pub struct Block(Vec<u8>);

impl View for Block {
    type V = Seq<u8>;

    closed spec fn view(&self) -> Seq<u8> {
        self.0@
    }
}

/// Reads four bytes in little-endian order.
fn read_le32(bytes: &Vec<u8>, at: usize) -> (x: u32)
    requires
        at + 4 <= bytes.len(),
    ensures
        x == le32_at(bytes@, at as int),
{
    let b0: u32 = bytes[at] as u32;
    let b1: u32 = bytes[at + 1] as u32;
    let b2: u32 = bytes[at + 2] as u32;
    let b3: u32 = bytes[at + 3] as u32;
    b0 + 256 * b1 + 65536 * b2 + 16777216 * b3
}

/// Appends the four bytes of `x`, least significant first.
fn push_le32(bytes: &mut Vec<u8>, x: u32)
    ensures
        final(bytes)@ == old(bytes)@ + le32_bytes(x),
{
    bytes.push((x % 256) as u8);
    bytes.push(((x / 256) % 256) as u8);
    bytes.push(((x / 65536) % 256) as u8);
    bytes.push((x / 16777216) as u8);
    assert(bytes@ =~= old(bytes)@ + le32_bytes(x));
}

impl Block {
    /// The client that the block names.
    pub open spec fn spec_client_id(&self) -> int {
        frame_client_id(self@)
    }

    /// The kind of the block, or why it has none.
    pub open spec fn spec_block_type(&self) -> Result<BlockType, Error> {
        frame_block_type(self@)
    }

    /// The payload length that the block announces.
    pub open spec fn spec_payload_len(&self) -> int {
        frame_payload_len(self@)
    }

    /// The payload that the block carries.
    pub open spec fn spec_payload(&self) -> Seq<u8> {
        frame_payload(self@)
    }

    /// The block holds a header, and the payload that it announces.
    pub open spec fn wf(&self) -> bool {
        frame_wf(self@)
    }

    /// Makes a block of the length that `raptorq` fixes. A block is refused
    /// where that length cannot hold a header, where a heartbeat names a
    /// client, where the payload is longer than `max_data_len`, and where a
    /// kind other than `Data` is given a payload that is not empty.
    pub fn new(block: BlockType, raptorq: &RaptorQ, client_id: ClientId, data: Option<&[u8]>) -> (r:
        Result<Block, Error>)
        ensures
            match r {
                Ok(b) => {
                    &&& frame_rejected(
                        block,
                        client_id,
                        spec_data(data),
                        raptorq.spec_block_size() as nat,
                    ) is None
                    &&& b@ == frame(
                        block,
                        client_id,
                        spec_data(data),
                        raptorq.spec_block_size() as nat,
                    )
                    &&& b@.len() == raptorq.spec_block_size()
                    &&& b.wf()
                    &&& b.spec_client_id() == client_id
                    &&& b.spec_block_type() == Ok::<BlockType, Error>(block)
                    &&& b.spec_payload() == spec_data(data)
                },
                Err(e) => {
                    &&& frame_rejected(
                        block,
                        client_id,
                        spec_data(data),
                        raptorq.spec_block_size() as nat,
                    ) is Some
                    &&& e == Error::InvalidParameter(
                        frame_rejected(
                            block,
                            client_id,
                            spec_data(data),
                            raptorq.spec_block_size() as nat,
                        )->0,
                    )
                },
            },
    {
        Block::with_length(block, raptorq.block_size() as usize, client_id, data)
    }

    /// Makes a block of `length` bytes, under the rules of `new`.
    pub fn with_length(block: BlockType, length: usize, client_id: ClientId, data: Option<&[u8]>) -> (r:
        Result<Block, Error>)
        ensures
            match r {
                Ok(b) => {
                    &&& frame_rejected(block, client_id, spec_data(data), length as nat) is None
                    &&& b@ == frame(block, client_id, spec_data(data), length as nat)
                    &&& b@.len() == length
                    &&& b.wf()
                    &&& b.spec_client_id() == client_id
                    &&& b.spec_block_type() == Ok::<BlockType, Error>(block)
                    &&& b.spec_payload() == spec_data(data)
                },
                Err(e) => {
                    &&& frame_rejected(block, client_id, spec_data(data), length as nat) is Some
                    &&& e == Error::InvalidParameter(
                        frame_rejected(block, client_id, spec_data(data), length as nat)->0,
                    )
                },
            },
    {
        if length < SERIALIZE_OVERHEAD {
            return Err(Error::InvalidParameter(Parameter::BlockLength));
        }
        let is_heartbeat = match block {
            BlockType::Heartbeat => true,
            _ => false,
        };
        if is_heartbeat && client_id != 0 {
            return Err(Error::InvalidParameter(Parameter::ClientId));
        }
        let is_data = match block {
            BlockType::Data => true,
            _ => false,
        };
        let payload_len: usize = match data {
            Some(d) => d.len(),
            None => 0,
        };
        if payload_len > length - SERIALIZE_OVERHEAD || payload_len > u32::MAX as usize || (!is_data
            && payload_len > 0) {
            return Err(Error::InvalidParameter(Parameter::Payload));
        }
        Ok(Block::assemble(block, length, client_id, data))
    }

    /// Lays out the bytes of a block whose parts fit together.
    pub(crate) fn assemble(
        block: BlockType,
        length: usize,
        client_id: ClientId,
        data: Option<&[u8]>,
    ) -> (b: Block)
        requires
            frame_rejected(block, client_id, spec_data(data), length as nat) is None,
        ensures
            b@ == frame(block, client_id, spec_data(data), length as nat),
            b@.len() == length,
            b.wf(),
            b.spec_client_id() == client_id,
            b.spec_block_type() == Ok::<BlockType, Error>(block),
            b.spec_payload() == spec_data(data),
    {
        let payload_len: usize = match data {
            Some(d) => d.len(),
            None => 0,
        };
        let mut content: Vec<u8> = Vec::with_capacity(length);
        push_le32(&mut content, client_id);
        content.push(block.serialized());
        push_le32(&mut content, payload_len as u32);
        if let Some(d) = data {
            let mut i: usize = 0;
            while i < d.len()
                invariant
                    i <= d@.len(),
                    d@.len() == payload_len,
                    content@ == le32_bytes(client_id) + seq![block.spec_serialized()] + le32_bytes(
                        payload_len as u32,
                    ) + d@.subrange(0, i as int),
                decreases d@.len() - i,
            {
                content.push(d[i]);
                i += 1;
                assert(content@ =~= le32_bytes(client_id) + seq![block.spec_serialized()]
                    + le32_bytes(payload_len as u32) + d@.subrange(0, i as int));
            }
            assert(d@.subrange(0, i as int) =~= d@);
        } else {
            assert(content@ =~= content@ + Seq::<u8>::empty());
        }
        let ghost head = content@;
        assert(head == le32_bytes(client_id) + seq![block.spec_serialized()] + le32_bytes(
            payload_len as u32,
        ) + spec_data(data));
        while content.len() < length
            invariant
                head.len() == 9 + payload_len,
                head.len() <= content@.len() <= length,
                content@ == head + Seq::new((content@.len() - head.len()) as nat, |i: int| 0u8),
            decreases length - content@.len(),
        {
            content.push(0u8);
            assert(content@ =~= head + Seq::new(
                (content@.len() - head.len()) as nat,
                |i: int| 0u8,
            ));
        }
        proof {
            lemma_frame_round_trip(block, client_id, spec_data(data), length as nat);
        }
        Block(content)
    }

    /// The client that the block names.
    pub fn client_id(&self) -> (id: ClientId)
        requires
            self@.len() >= 4,
        ensures
            id == self.spec_client_id(),
    {
        read_le32(&self.0, 0)
    }

    /// The kind of the block. A kind byte that is none of the five known
    /// ones is handed back in the error, as is its absence.
    pub fn block_type(&self) -> (r: Result<BlockType, Error>)
        ensures
            r == self.spec_block_type(),
    {
        if self.0.len() <= 4 {
            return Err(Error::InvalidBlockType(None));
        }
        let b: u8 = self.0[4];
        if b == ID_HEARTBEAT {
            Ok(BlockType::Heartbeat)
        } else if b == ID_START {
            Ok(BlockType::Start)
        } else if b == ID_DATA {
            Ok(BlockType::Data)
        } else if b == ID_ABORT {
            Ok(BlockType::Abort)
        } else if b == ID_END {
            Ok(BlockType::End)
        } else {
            Err(Error::InvalidBlockType(Some(b)))
        }
    }

    /// The payload length that the block announces.
    pub fn payload_len(&self) -> (n: u32)
        requires
            self@.len() >= 9,
        ensures
            n == self.spec_payload_len(),
    {
        read_le32(&self.0, 5)
    }

    /// Takes decoded bytes as a block, whatever they hold.
    pub fn deserialize(data: Vec<u8>) -> (b: Block)
        ensures
            b@ == data@,
    {
        Block(data)
    }

    /// Tells whether the block holds a header and the payload it announces.
    pub fn is_well_formed(&self) -> (ok: bool)
        ensures
            ok == self.wf(),
    {
        if self.0.len() < SERIALIZE_OVERHEAD {
            return false;
        }
        let n: u32 = self.payload_len();
        n as u64 <= (self.0.len() - SERIALIZE_OVERHEAD) as u64
    }

    /// Largest payload of a block: what the header leaves of its length.
    pub fn max_data_len(raptorq: &RaptorQ) -> (n: usize)
        ensures
            n == if raptorq.spec_block_size() >= 9 {
                raptorq.spec_block_size() - 9
            } else {
                0
            },
    {
        let length: usize = raptorq.block_size() as usize;
        if length >= SERIALIZE_OVERHEAD {
            length - SERIALIZE_OVERHEAD
        } else {
            0
        }
    }

    /// The payload that the block carries, without the padding.
    pub fn payload(&self) -> (p: &[u8])
        requires
            self.wf(),
        ensures
            p@ == self.spec_payload(),
    {
        let length: usize = self.0.len();
        let n: usize = self.payload_len() as usize;
        vstd::slice::slice_subrange(self.0.as_slice(), SERIALIZE_OVERHEAD, SERIALIZE_OVERHEAD + n)
    }

    /// The bytes of the block, as they are encoded.
    pub fn serialized(&self) -> (bytes: &[u8])
        ensures
            bytes@ == self@,
    {
        self.0.as_slice()
    }
}

/// The payload that an optional slice stands for: none is an empty one.
pub open spec fn spec_data(data: Option<&[u8]>) -> Seq<u8> {
    match data {
        Some(d) => d@,
        None => Seq::<u8>::empty(),
    }
}

} // verus!
