//! How a peer is told of another node.
use crate::wire::{field_bytes, le_bytes, lemma_le_bytes_len, lemma_prefix_rest, lemma_split_field};
use crate::wire::InvalidData;
use bytes::Bytes;
use vstd::prelude::*;

verus! {

/// How a peer is told of another node: its kind and where to reach it.
#[derive(Debug, PartialEq, Eq)]
pub struct ConnectionPacket {
    pub node_type: Vec<u8>,
    pub address: Vec<u8>,
}

#[verifier::ext_equal]
pub struct ConnectionPacketView {
    pub node_type: Seq<u8>,
    pub address: Seq<u8>,
}

impl View for ConnectionPacket {
    type V = ConnectionPacketView;

    open spec fn view(&self) -> ConnectionPacketView {
        ConnectionPacketView { node_type: self.node_type@, address: self.address@ }
    }
}

impl ConnectionPacketView {
    /// The packet as it is sent: both fields, each behind its length.
    pub open spec fn wire(self) -> Seq<u8> {
        field_bytes(self.node_type) + field_bytes(self.address)
    }

    /// The packet that `input` starts with, if it starts with one.
    pub open spec fn read(input: Seq<u8>) -> Option<ConnectionPacketView> {
        if exists|packet: ConnectionPacketView| (#[trigger] packet.wire()).is_prefix_of(input) {
            Some(choose|packet: ConnectionPacketView| (#[trigger] packet.wire()).is_prefix_of(input))
        } else {
            None
        }
    }
}

/// Bytes start with at most one connection packet.
pub proof fn law_packet_is_unique(a: ConnectionPacketView, b: ConnectionPacketView, input: Seq<u8>)
    requires
        input.len() <= u64::MAX,
        a.wire().is_prefix_of(input),
        b.wire().is_prefix_of(input),
    ensures
        a == b,
{
    lemma_prefix_rest(a.wire(), input);
    lemma_prefix_rest(b.wire(), input);
    let (rest_a, rest_b) = (input.skip(a.wire().len() as int), input.skip(b.wire().len() as int));
    let (tail_a, tail_b) = (field_bytes(a.address) + rest_a, field_bytes(b.address) + rest_b);
    assert(input =~= field_bytes(a.node_type) + tail_a);
    assert(input =~= field_bytes(b.node_type) + tail_b);
    lemma_split_field(a.node_type, b.node_type, tail_a, tail_b);
    lemma_split_field(a.address, b.address, rest_a, rest_b);
}

/// A packet takes sixteen bytes more than its fields.
pub proof fn lemma_packet_len(packet: ConnectionPacketView)
    ensures
        packet.wire().len() == 16 + packet.node_type.len() + packet.address.len(),
{
    lemma_le_bytes_len(packet.node_type.len(), 8);
    lemma_le_bytes_len(packet.address.len(), 8);
}

/// Reading gives back the packet that was written, whatever was sent after it.
pub proof fn law_packet_round_trip(packet: ConnectionPacketView, rest: Seq<u8>)
    requires
        (packet.wire() + rest).len() <= u64::MAX,
    ensures
        ConnectionPacketView::read(packet.wire() + rest) == Some(packet),
{
    let input = packet.wire() + rest;
    assert(packet.wire() =~= input.subrange(0, packet.wire().len() as int));
    assert(packet.wire().is_prefix_of(input));
    let found = choose|p: ConnectionPacketView| (#[trigger] p.wire()).is_prefix_of(input);
    law_packet_is_unique(packet, found, input);
}

/// A packet that is cut short is not read as anything.
pub proof fn law_cut_packet_is_refused(packet: ConnectionPacketView, kept: int)
    requires
        packet.wire().len() <= u64::MAX,
        0 <= kept < packet.wire().len(),
    ensures
        ConnectionPacketView::read(packet.wire().take(kept)) is None,
{
    let (whole, cut) = (packet.wire(), packet.wire().take(kept));
    assert(whole.is_prefix_of(whole)) by {
        assert(whole =~= whole.subrange(0, whole.len() as int));
    }
    assert forall|other: ConnectionPacketView| !(#[trigger] other.wire()).is_prefix_of(cut) by {
        if other.wire().is_prefix_of(cut) {
            let end = other.wire().len() as int;
            assert(whole.subrange(0, end) =~= cut.subrange(0, end));
            law_packet_is_unique(packet, other, whole);
        }
    }
}

/// What reads as a packet stands at the start of the input, and is not nothing.
pub proof fn lemma_packet_stands_first(input: Seq<u8>)
    ensures
        ConnectionPacketView::read(input) matches Some(packet) ==> packet.wire().is_prefix_of(input)
            && 16 <= packet.wire().len() <= input.len(),
{
    if let Some(packet) = ConnectionPacketView::read(input) {
        assert(packet.wire().is_prefix_of(input));
        lemma_packet_len(packet);
    }
}

/// The packets in a list, each read where the one before it ends, up to the first
/// place where none can be read.
pub open spec fn packets_in(input: Seq<u8>) -> Seq<ConnectionPacketView>
    decreases input.len(),
{
    match ConnectionPacketView::read(input) {
        Some(packet) => {
            proof {
                lemma_packet_stands_first(input);
            }
            seq![packet] + packets_in(input.skip(packet.wire().len() as int))
        },
        None => Seq::empty(),
    }
}

/// Packets that are sent one behind the other are all read again, in their order,
/// and what follows them is read as it would be alone.
pub proof fn law_packets_are_listed(packets: Seq<ConnectionPacketView>, rest: Seq<u8>)
    requires
        (packets.map_values(|packet: ConnectionPacketView| packet.wire()).flatten() + rest).len()
            <= u64::MAX,
    ensures
        packets_in(
            packets.map_values(|packet: ConnectionPacketView| packet.wire()).flatten() + rest,
        ) == packets + packets_in(rest),
    decreases packets.len(),
{
    let wires = packets.map_values(|packet: ConnectionPacketView| packet.wire());
    let list = wires.flatten() + rest;
    if packets.len() == 0 {
        assert(list =~= rest);
        assert(packets + packets_in(rest) =~= packets_in(rest));
    } else {
        let (first, others) = (packets.first(), packets.drop_first());
        assert(wires.drop_first() =~= others.map_values(
            |packet: ConnectionPacketView| packet.wire(),
        ));
        let behind = wires.drop_first().flatten() + rest;
        assert(list =~= first.wire() + behind);
        law_packet_round_trip(first, behind);
        assert(list.skip(first.wire().len() as int) =~= behind);
        law_packets_are_listed(others, rest);
        assert(packets + packets_in(rest) =~= seq![first] + (others + packets_in(rest)));
    }
}

/// `bincode::serialize` of the pair of the packet's fields as `bytes::Bytes`.
///
/// Claims that it succeeds and gives each field behind its length as an
/// eight-byte little-endian integer. The size is bounded by what one vector
/// can hold, which `serialize` allocates up front.
#[verifier::external_body]
fn bincode_write_packet(packet: &ConnectionPacket) -> (written: Result<Vec<u8>, bincode::Error>)
    requires
        packet@.wire().len() <= isize::MAX,
    ensures
        written is Ok,
        written->Ok_0@ == packet@.wire(),
{
    bincode::serialize(
        &(Bytes::copy_from_slice(&packet.node_type), Bytes::copy_from_slice(&packet.address)),
    )
}

/// `bincode::deserialize` of a pair of `bytes::Bytes`.
///
/// Claims that it gives the two fields that the input starts with, ignores what
/// follows them, and fails only where the input starts with no such pair.
#[verifier::external_body]
fn bincode_read_packet(input: &[u8]) -> (read: Result<ConnectionPacket, bincode::Error>)
    ensures
        match read {
            Ok(packet) => packet@.wire().is_prefix_of(input@),
            Err(_) => forall|packet: ConnectionPacketView|
                !(#[trigger] packet.wire()).is_prefix_of(input@),
        },
{
    match bincode::deserialize::<(Bytes, Bytes)>(input) {
        Ok((node_type, address)) => Ok(
            ConnectionPacket { node_type: node_type.to_vec(), address: address.to_vec() },
        ),
        Err(error) => Err(error),
    }
}

/// Writes a connection packet.
pub fn serialize_connection_packet(packet: &ConnectionPacket) -> (bytes: Vec<u8>)
    requires
        packet@.wire().len() <= isize::MAX,
    ensures
        bytes@ == packet@.wire(),
{
    bincode_write_packet(packet).unwrap()
}

/// Reads the connection packet at the start of `buffer`; what follows it is ignored.
pub fn deserialize_connection_packet(buffer: &[u8]) -> (packet: Result<ConnectionPacket, InvalidData>)
    ensures
        match packet {
            Ok(packet) => ConnectionPacketView::read(buffer@) == Some(packet@),
            Err(InvalidData) => ConnectionPacketView::read(buffer@) is None,
        },
{
    match bincode_read_packet(buffer) {
        Ok(packet) => {
            proof {
                assert(buffer@.len() == buffer.len());
                let found = choose|p: ConnectionPacketView| (#[trigger] p.wire()).is_prefix_of(buffer@);
                law_packet_is_unique(packet@, found, buffer@);
            }
            Ok(packet)
        },
        Err(_) => Err(InvalidData),
    }
}

/// A packet is sent as the length of its kind in eight bytes, its kind, the length of
/// its address in eight bytes, and its address.
pub proof fn law_packet_layout(packet: ConnectionPacketView)
    ensures
        packet.wire() == le_bytes(packet.node_type.len(), 8) + packet.node_type + le_bytes(
            packet.address.len(),
            8,
        ) + packet.address,
{
    assert(packet.wire() =~= le_bytes(packet.node_type.len(), 8) + packet.node_type + le_bytes(
        packet.address.len(),
        8,
    ) + packet.address);
}

/// What is written is the packet as it is sent.
pub proof fn law_packets_are_written(packet: &ConnectionPacket, bytes: Vec<u8>)
    requires
        call_ensures(serialize_connection_packet, (packet,), bytes),
    ensures
        bytes@ == le_bytes(packet.node_type@.len(), 8) + packet.node_type@ + le_bytes(
            packet.address@.len(),
            8,
        ) + packet.address@,
        16 + packet.node_type@.len() + packet.address@.len() <= isize::MAX ==> call_requires(
            serialize_connection_packet,
            (packet,),
        ),
{
    law_packet_layout(packet@);
    lemma_packet_len(packet@);
}

/// What is read is the packet that the bytes start with, and only bytes that start with
/// no packet are refused.
pub proof fn law_packets_are_read(buffer: &[u8], read: Result<ConnectionPacket, InvalidData>)
    requires
        call_ensures(deserialize_connection_packet, (buffer,), read),
    ensures
        match read {
            Ok(packet) => packet@.wire().is_prefix_of(buffer@),
            Err(_) => forall|packet: ConnectionPacketView|
                !(#[trigger] packet.wire()).is_prefix_of(buffer@),
        },
        call_requires(deserialize_connection_packet, (buffer,)),
{
}

} // verus!
