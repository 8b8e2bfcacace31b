//! A peer: how it finds its place in the network, and where it listens.
use crate::bootnode::{client_packet, leader_packet, ADDRESS_LEN, LEADER_ADDRESS};
use crate::packet::{deserialize_connection_packet, law_packets_are_listed, lemma_packet_len};
use crate::packet::lemma_packet_stands_first;
use crate::packet::{packets_in, ConnectionPacket, ConnectionPacketView};
use crate::transaction::{deserialize_transaction, Transaction, TransactionView};
use crate::wire::same_bytes;
use rand::Rng;
use vstd::prelude::*;
use vstd::slice::slice_subrange;
use vstd::utf8::{decode_utf8, encode_utf8, encode_utf8_decode_utf8, encode_utf8_valid_utf8};
use vstd::utf8::{is_ascii_chars_encode_utf8, valid_utf8};

verus! {

/// The lowest port that a peer listens on.
pub const FIRST_PORT: u16 = 1024;

/// The port above the highest that a peer listens on.
pub const PORT_END: u16 = 9999;

/// What bytes say as text, with what is not UTF-8 replaced.
pub uninterp spec fn lossy_text(bytes: Seq<u8>) -> Seq<char>;

/// `String::from_utf8_lossy`.
///
/// Claims that the text is determined by the bytes, and that bytes that are
/// UTF-8 are decoded as they are.
#[verifier::external_body]
fn utf8_lossy(bytes: &[u8]) -> (text: String)
    ensures
        text@ == lossy_text(bytes@),
        valid_utf8(bytes@) ==> text@ == decode_utf8(bytes@),
{
    String::from_utf8_lossy(bytes).into_owned()
}

/// `rand::Rng::gen_range` on the thread's generator: any number from `low` to
/// below `high`. Which one is left to chance.
#[verifier::external_body]
fn random_between(low: u16, high: u16) -> (number: u16)
    requires
        low < high,
    ensures
        low <= number < high,
{
    rand::thread_rng().gen_range(low..high)
}

/// What a peer does with a packet that the bootnode sent.
#[derive(Debug)]
pub enum Lead {
    /// Connect to the node that `packet` tells of, at `target`.
    Dial { packet: ConnectionPacket, target: String },
    /// Report the packet as bad and go on to the next.
    Skip,
}

/// The lead connects the peer to the node that `told` tells of, at its address.
pub open spec fn dials(lead: Lead, told: ConnectionPacketView) -> bool {
    lead matches Lead::Dial { packet, target } && packet@ == told && target@ == lossy_text(
        told.address,
    ) && (valid_utf8(told.address) ==> target@ == decode_utf8(told.address))
}

/// The leads follow each packet of `frame`, in their order. A frame that starts with
/// no packet is skipped.
pub open spec fn follow(leads: Seq<Lead>, frame: Seq<u8>) -> bool {
    &&& packets_in(frame).len() == 0 ==> leads == seq![Lead::Skip]
    &&& packets_in(frame).len() > 0 ==> leads.len() == packets_in(frame).len()
    &&& forall|i: int|
        0 <= i < packets_in(frame).len() ==> dials(#[trigger] leads[i], packets_in(frame)[i])
}

/// Reads a frame of packets that the bootnode sent: which nodes to connect to, and
/// where.
pub fn follow_leads(frame: &[u8]) -> (leads: Vec<Lead>)
    ensures
        follow(leads@, frame@),
{
    let mut leads: Vec<Lead> = Vec::new();
    let mut rest = frame;
    let mut more = true;
    let ghost mut told = Seq::<ConnectionPacketView>::empty();
    assert(told + packets_in(rest@) =~= packets_in(frame@));
    while more
        invariant
            told + packets_in(rest@) == packets_in(frame@),
            leads@.len() == told.len(),
            forall|i: int| 0 <= i < told.len() ==> dials(#[trigger] leads@[i], told[i]),
            !more ==> packets_in(rest@).len() == 0,
        decreases rest@.len() + (if more { 1int } else { 0 }),
    {
        match deserialize_connection_packet(rest) {
            Ok(packet) => {
                proof {
                    lemma_packet_stands_first(rest@);
                    lemma_packet_len(packet@);
                    assert(rest@.len() == rest.len());
                }
                let end = packet.node_type.len() + packet.address.len() + 16;
                let ghost (list, behind) = (packets_in(rest@), packets_in(rest@.skip(end as int)));
                assert(list == seq![packet@] + behind);
                assert(told.push(packet@) + behind =~= told + list);
                let target = utf8_lossy(packet.address.as_slice());
                rest = slice_subrange(rest, end, rest.len());
                proof {
                    told = told.push(packet@);
                }
                leads.push(Lead::Dial { packet, target });
            },
            Err(_) => {
                more = false;
            },
        }
    }
    assert(told =~= packets_in(frame@));
    if leads.len() == 0 {
        leads.push(Lead::Skip);
        assert(leads@ =~= seq![Lead::Skip]);
    }
    leads
}

/// How many frames of packets the bootnode sends before the history.
pub const FRAMES_OF_PACKETS: usize = 2;

/// What a peer learns from a frame that the bootnode sent.
#[derive(Debug)]
pub enum Heard {
    /// Whom to connect to.
    Leads(Vec<Lead>),
    /// A transaction that the network committed.
    Past(Transaction),
    /// Nothing: the frame holds no transaction where one is due.
    Nothing,
}

/// Reads the frame that the bootnode sent after `before` others: first come the
/// packets, then the history.
pub fn hear(before: usize, frame: &[u8]) -> (heard: Heard)
    ensures
        before < FRAMES_OF_PACKETS ==> (heard matches Heard::Leads(leads) && follow(leads@, frame@)),
        before >= FRAMES_OF_PACKETS ==> match TransactionView::read(frame@) {
            Some(tx) => heard matches Heard::Past(past) && past@ == tx,
            None => heard is Nothing,
        },
{
    if before < FRAMES_OF_PACKETS {
        return Heard::Leads(follow_leads(frame));
    }
    match deserialize_transaction(frame) {
        Ok(past) => Heard::Past(past),
        Err(_) => Heard::Nothing,
    }
}

/// What a connected node is to the peer.
#[derive(Debug, Clone, Copy, PartialEq, Eq, Structural)]
pub enum Role {
    Leader,
    Peer,
}

/// A packet of the kind `leader` tells of the leader, any other of a peer.
pub open spec fn role_of(packet: ConnectionPacketView) -> Role {
    if packet.node_type == encode_utf8("leader"@) {
        Role::Leader
    } else {
        Role::Peer
    }
}

/// The nodes that the peer is connected to, by address.
#[derive(Debug)]
pub struct PeerLinks {
    pub leader: Option<String>,
    pub registry: Vec<String>,
}

#[verifier::ext_equal]
pub struct PeerLinksView {
    pub leader: Option<Seq<char>>,
    pub registry: Seq<Seq<char>>,
}

impl View for PeerLinks {
    type V = PeerLinksView;

    open spec fn view(&self) -> PeerLinksView {
        PeerLinksView {
            leader: match self.leader {
                Some(address) => Some(address@),
                None => None,
            },
            registry: self.registry@.map_values(|address: String| address@),
        }
    }
}

impl PeerLinksView {
    /// A peer that is connected to nobody.
    pub open spec fn initial() -> PeerLinksView {
        PeerLinksView { leader: None, registry: Seq::empty() }
    }

    /// With one more connection. The leader named last is the leader.
    pub open spec fn with(self, packet: ConnectionPacketView, target: Seq<char>) -> PeerLinksView {
        match role_of(packet) {
            Role::Leader => PeerLinksView { leader: Some(target), ..self },
            Role::Peer => PeerLinksView { registry: self.registry.push(target), ..self },
        }
    }

    /// With a number of connections more, one after the other.
    pub open spec fn with_all(self, connections: Seq<(ConnectionPacketView, Seq<char>)>) -> PeerLinksView
        decreases connections.len(),
    {
        if connections.len() == 0 {
            self
        } else {
            self.with_all(connections.drop_last()).with(connections.last().0, connections.last().1)
        }
    }
}

/// Where the nodes are reached that are named as leader, in order.
pub open spec fn leads_of(connections: Seq<(ConnectionPacketView, Seq<char>)>) -> Seq<Seq<char>> {
    connections.filter(
        |c: (ConnectionPacketView, Seq<char>)| role_of(c.0) == Role::Leader,
    ).map_values(|c: (ConnectionPacketView, Seq<char>)| c.1)
}

impl PeerLinks {
    /// A peer that is connected to nobody.
    pub fn new() -> (links: PeerLinks)
        ensures
            links@ == PeerLinksView::initial(),
    {
        let links = PeerLinks { leader: None, registry: Vec::new() };
        assert(links@.registry =~= Seq::empty());
        links
    }

    /// Takes note of a connection that was made, and says what the node is.
    pub fn connected(&mut self, packet: &ConnectionPacket, target: String) -> (role: Role)
        ensures
            role == role_of(packet@),
            final(self)@ == old(self)@.with(packet@, target@),
    {
        if same_bytes(packet.node_type.as_slice(), "leader".as_bytes()) {
            self.leader = Some(target);
            assert(self@ =~= old(self)@.with(packet@, target@));
            Role::Leader
        } else {
            self.registry.push(target);
            assert(self@.registry =~= old(self)@.registry.push(target@));
            Role::Peer
        }
    }
}

/// A peer finds a leader exactly if it connects to a node that is named as one, and
/// of several the last is its leader.
pub proof fn law_last_named_leader_leads(connections: Seq<(ConnectionPacketView, Seq<char>)>)
    ensures
        PeerLinksView::initial().with_all(connections).leader == (if leads_of(connections).len() == 0 {
            None
        } else {
            Some(leads_of(connections).last())
        }),
    decreases connections.len(),
{
    reveal(Seq::filter);
    if connections.len() > 0 {
        let is_leader = |c: (ConnectionPacketView, Seq<char>)| role_of(c.0) == Role::Leader;
        law_last_named_leader_leads(connections.drop_last());
        let before = connections.drop_last().filter(is_leader);
        if role_of(connections.last().0) == Role::Leader {
            assert(connections.filter(is_leader) == before.push(connections.last()));
            assert(leads_of(connections) =~= leads_of(connections.drop_last()).push(connections.last().1));
        }
    }
}

/// A peer keeps every other node that it connects to, in order.
pub proof fn law_other_nodes_are_kept(connections: Seq<(ConnectionPacketView, Seq<char>)>)
    ensures
        PeerLinksView::initial().with_all(connections).registry == connections.filter(
            |c: (ConnectionPacketView, Seq<char>)| role_of(c.0) == Role::Peer,
        ).map_values(|c: (ConnectionPacketView, Seq<char>)| c.1),
    decreases connections.len(),
{
    reveal(Seq::filter);
    let is_peer = |c: (ConnectionPacketView, Seq<char>)| role_of(c.0) == Role::Peer;
    let target = |c: (ConnectionPacketView, Seq<char>)| c.1;
    if connections.len() == 0 {
        assert(connections.filter(is_peer).map_values(target) =~= Seq::empty());
    } else {
        law_other_nodes_are_kept(connections.drop_last());
        let before = connections.drop_last().filter(is_peer);
        if role_of(connections.last().0) == Role::Peer {
            assert(connections.filter(is_peer) == before.push(connections.last()));
            assert(before.push(connections.last()).map_values(target) =~= before.map_values(target).push(
                connections.last().1,
            ));
        }
    }
}

/// The bootnode's word for the leader leads a peer to the leader: the packet names
/// the leader, and its address says as text where the leader is reached.
pub proof fn law_leader_is_dialed()
    ensures
        role_of(leader_packet()) == Role::Leader,
        valid_utf8(leader_packet().address),
        decode_utf8(leader_packet().address) == LEADER_ADDRESS@,
{
    encode_utf8_valid_utf8(LEADER_ADDRESS@);
    encode_utf8_decode_utf8(LEADER_ADDRESS@);
}

/// The bootnode's word for a registered peer leads a new peer to it: the packet names
/// a peer, and its address says as text where that peer is reached.
pub proof fn law_listed_peers_are_dialed(address: Seq<char>)
    ensures
        role_of(client_packet(encode_utf8(address))) == Role::Peer,
        valid_utf8(client_packet(encode_utf8(address)).address),
        decode_utf8(client_packet(encode_utf8(address)).address) == address,
{
    encode_utf8_valid_utf8(address);
    encode_utf8_decode_utf8(address);
    assert("client"@[0] != "leader"@[0]) by {
        reveal_strlit("client");
        reveal_strlit("leader");
    }
    encode_utf8_decode_utf8("client"@);
    encode_utf8_decode_utf8("leader"@);
}

/// The digit for a number below ten.
pub open spec fn digit(n: nat) -> char {
    (48 + n) as char
}

/// A number in decimal.
pub open spec fn decimal(n: nat) -> Seq<char>
    decreases n,
{
    if n < 10 {
        seq![digit(n)]
    } else {
        decimal(n / 10).push(digit(n % 10))
    }
}

/// The local address with a port.
pub open spec fn local_address(port: u16) -> Seq<char> {
    "127.0.0.1:"@ + decimal(port as nat)
}

fn digit_text(n: u16) -> (text: &'static str)
    requires
        n < 10,
    ensures
        text@ == seq![digit(n as nat)],
{
    proof {
        reveal_strlit("0");
        reveal_strlit("1");
        reveal_strlit("2");
        reveal_strlit("3");
        reveal_strlit("4");
        reveal_strlit("5");
        reveal_strlit("6");
        reveal_strlit("7");
        reveal_strlit("8");
        reveal_strlit("9");
    }
    let text = match n {
        0 => "0",
        1 => "1",
        2 => "2",
        3 => "3",
        4 => "4",
        5 => "5",
        6 => "6",
        7 => "7",
        8 => "8",
        _ => "9",
    };
    assert(text@ =~= seq![digit(n as nat)]);
    text
}

fn decimal_text(n: u16) -> (text: String)
    ensures
        text@ == decimal(n as nat),
    decreases n,
{
    if n < 10 {
        digit_text(n).to_owned()
    } else {
        let mut text = decimal_text(n / 10);
        text.append(digit_text(n % 10));
        assert(text@ =~= decimal(n as nat));
        text
    }
}

/// The address at which a peer listens that has drawn `port`.
pub fn listen_address(port: u16) -> (address: String)
    ensures
        address@ == local_address(port),
{
    let mut address = "127.0.0.1:".to_owned();
    address.append(decimal_text(port).as_str());
    address
}

/// Draws the address at which a peer tries to listen.
pub fn draw_listen_address() -> (address: String)
    ensures
        exists|port: u16| FIRST_PORT <= port < PORT_END && address@ == #[trigger] local_address(port),
{
    let port = random_between(FIRST_PORT, PORT_END);
    listen_address(port)
}

/// The address of every peer takes as many bytes as the bootnode expects of one.
pub proof fn law_listen_addresses_pack(port: u16)
    requires
        FIRST_PORT <= port < PORT_END,
    ensures
        encode_utf8(local_address(port)).len() == ADDRESS_LEN,
{
    reveal_with_fuel(decimal, 5);
    reveal_strlit("127.0.0.1:");
    assert(decimal(port as nat).len() == 4);
    let address = local_address(port);
    assert forall|i: int| 0 <= i < address.len() implies '\0' <= #[trigger] address[i] <= '\u{7f}' by {}
    is_ascii_chars_encode_utf8(address);
}

/// Whether a peer tries another address, once it has tried to listen at one.
pub open spec fn tries_again(bound: bool) -> bool {
    !bound
}

/// Where a peer tries to listen next: nowhere once it is `bound`, and else at a newly
/// drawn address.
pub fn next_try(bound: bool) -> (address: Option<String>)
    ensures
        match address {
            Some(address) => tries_again(bound) && encode_utf8(address@).len() == ADDRESS_LEN
                && exists|port: u16|
                FIRST_PORT <= port < PORT_END && address@ == #[trigger] local_address(port),
            None => !tries_again(bound),
        },
{
    if bound {
        return None;
    }
    let address = draw_listen_address();
    proof {
        let port = choose|port: u16|
            FIRST_PORT <= port < PORT_END && address@ == #[trigger] local_address(port);
        law_listen_addresses_pack(port);
    }
    Some(address)
}

/// How many addresses a peer tries, where its tries to listen go as `outcomes` say.
pub open spec fn tries(outcomes: Seq<bool>) -> nat
    decreases outcomes.len(),
{
    if outcomes.len() == 0 || !tries_again(outcomes.first()) {
        1
    } else {
        1 + tries(outcomes.drop_first())
    }
}

/// A peer whose tries to listen fail goes on to the first that succeeds, and no further.
pub proof fn law_peer_tries_until_it_listens(outcomes: Seq<bool>, failed: nat)
    requires
        failed <= outcomes.len(),
        forall|i: int| 0 <= i < failed ==> !#[trigger] outcomes[i],
        failed < outcomes.len() ==> outcomes[failed as int],
    ensures
        tries(outcomes) == failed + 1,
    decreases failed,
{
    if failed > 0 {
        let rest = outcomes.drop_first();
        assert(!outcomes[0]);
        assert forall|i: int| 0 <= i < failed - 1 implies !#[trigger] rest[i] by {
            assert(rest[i] == outcomes[i + 1]);
        }
        law_peer_tries_until_it_listens(rest, (failed - 1) as nat);
    }
}

/// Every packet of a frame is followed: one connection for each, in their order, to the
/// node that it tells of and at its address, however many there are and whatever is left
/// over behind them.
pub proof fn law_every_packet_is_followed(
    packets: Seq<ConnectionPacketView>,
    rest: Seq<u8>,
    frame: &[u8],
    leads: Vec<Lead>,
)
    requires
        packets.len() > 0,
        ConnectionPacketView::read(rest) is None,
        frame@ == packets.map_values(|packet: ConnectionPacketView| packet.wire()).flatten() + rest,
        frame@.len() <= u64::MAX,
        call_ensures(follow_leads, (frame,), leads),
    ensures
        leads@.len() == packets.len(),
        forall|i: int|
            0 <= i < packets.len() ==> (#[trigger] leads@[i] matches Lead::Dial { packet, target }
                && packet@ == packets[i] && target@ == lossy_text(packets[i].address) && (valid_utf8(
                packets[i].address,
            ) ==> target@ == decode_utf8(packets[i].address))),
        call_requires(follow_leads, (frame,)),
{
    law_packets_are_listed(packets, rest);
    assert(packets + packets_in(rest) =~= packets);
    assert forall|i: int| 0 <= i < packets.len() implies (#[trigger] leads@[i] matches Lead::Dial {
        packet,
        target,
    } && packet@ == packets[i] && target@ == lossy_text(packets[i].address) && (valid_utf8(
        packets[i].address,
    ) ==> target@ == decode_utf8(packets[i].address))) by {
        assert(dials(leads@[i], packets_in(frame@)[i]));
    }
}

/// A frame is skipped exactly if it starts with no packet, and then it is skipped once. A
/// frame that starts with a packet leads to connections alone.
pub proof fn law_only_frames_without_packets_are_skipped(frame: &[u8], leads: Vec<Lead>)
    requires
        call_ensures(follow_leads, (frame,), leads),
    ensures
        ConnectionPacketView::read(frame@) is None ==> leads@.len() == 1 && leads@[0] is Skip,
        ConnectionPacketView::read(frame@) is Some ==> leads@.len() > 0 && forall|i: int|
            0 <= i < leads@.len() ==> #[trigger] leads@[i] is Dial,
        ConnectionPacketView::read(frame@) matches Some(first) ==> (
        leads@[0] matches Lead::Dial { packet, .. } && packet@ == first),
{
    if let Some(first) = ConnectionPacketView::read(frame@) {
        lemma_packet_stands_first(frame@);
        assert(packets_in(frame@)[0] == first);
        assert forall|i: int| 0 <= i < leads@.len() implies #[trigger] leads@[i] is Dial by {
            assert(dials(leads@[i], packets_in(frame@)[i]));
        }
        assert(dials(leads@[0], packets_in(frame@)[0]));
    }
}

/// A new peer connects to every registered peer, in order and each at its address. This
/// holds of any number of peers whose addresses take fourteen bytes, and whose packets one
/// slice can hold.
pub proof fn law_registered_peers_are_dialed(
    registry: Seq<Seq<char>>,
    frame: &[u8],
    leads: Vec<Lead>,
)
    requires
        registry.len() > 0,
        forall|i: int| 0 <= i < registry.len() ==> encode_utf8(#[trigger] registry[i]).len() == 14,
        frame@ == registry.map_values(
            |address: Seq<char>|
                (ConnectionPacketView {
                    node_type: encode_utf8("client"@),
                    address: encode_utf8(address),
                }).wire(),
        ).flatten(),
        frame@.len() <= u64::MAX,
        call_ensures(follow_leads, (frame,), leads),
    ensures
        leads@.len() == registry.len(),
        forall|i: int|
            0 <= i < registry.len() ==> (#[trigger] leads@[i] matches Lead::Dial { packet, target }
                && packet.node_type@ == encode_utf8("client"@) && packet.address@ == encode_utf8(
                registry[i],
            ) && target@ == registry[i]),
{
    let packets = registry.map_values(
        |address: Seq<char>|
            ConnectionPacketView {
                node_type: encode_utf8("client"@),
                address: encode_utf8(address),
            },
    );
    let nothing = Seq::<u8>::empty();
    let wires = packets.map_values(|packet: ConnectionPacketView| packet.wire());
    assert(wires =~= registry.map_values(
        |address: Seq<char>|
            (ConnectionPacketView {
                node_type: encode_utf8("client"@),
                address: encode_utf8(address),
            }).wire(),
    ));
    assert(wires.flatten() + nothing =~= wires.flatten());
    lemma_packet_stands_first(nothing);
    law_every_packet_is_followed(packets, nothing, frame, leads);
    assert forall|i: int| 0 <= i < registry.len() implies (
    #[trigger] leads@[i] matches Lead::Dial { packet, target } && packet.node_type@ == encode_utf8(
        "client"@,
    ) && packet.address@ == encode_utf8(registry[i]) && target@ == registry[i]) by {
        encode_utf8_valid_utf8(registry[i]);
        encode_utf8_decode_utf8(registry[i]);
        if let Lead::Dial { packet, target } = leads@[i] {
            assert(packet@ == packets[i]);
        }
    }
}

/// The first two frames of the bootnode are read as packets, and each one after them as a
/// transaction that was committed.
pub proof fn law_frames_are_heard_in_turn(before: usize, frame: &[u8], heard: Heard)
    requires
        call_ensures(hear, (before, frame), heard),
    ensures
        before < 2 ==> heard is Leads,
        before < 2 ==> (ConnectionPacketView::read(frame@) is None <==> (heard matches Heard::Leads(leads)
            && leads@.len() == 1 && leads@[0] is Skip)),
        before < 2 ==> (heard matches Heard::Leads(leads) && forall|i: int|
            0 <= i < packets_in(frame@).len() ==> (#[trigger] leads@[i] matches Lead::Dial { packet, .. }
                && packet@ == packets_in(frame@)[i])),
        before < 2 && packets_in(frame@).len() > 0 ==> (heard matches Heard::Leads(leads) && leads@.len()
            == packets_in(frame@).len()),
        before >= 2 ==> match TransactionView::read(frame@) {
            Some(tx) => heard matches Heard::Past(past) && past@ == tx,
            None => heard is Nothing,
        },
        call_requires(hear, (before, frame)),
{
    if let Heard::Leads(leads) = heard {
        if before < 2 {
            lemma_packet_stands_first(frame@);
            assert forall|i: int| 0 <= i < packets_in(frame@).len() implies (
            #[trigger] leads@[i] matches Lead::Dial { packet, .. } && packet@ == packets_in(frame@)[i]) by {
                assert(dials(leads@[i], packets_in(frame@)[i]));
            }
            if let Some(first) = ConnectionPacketView::read(frame@) {
                assert(packets_in(frame@)[0] == first);
                assert(dials(leads@[0], packets_in(frame@)[0]));
            }
        }
    }
}

/// A peer starts without connections.
pub proof fn law_peer_starts_alone(links: PeerLinks)
    requires
        call_ensures(PeerLinks::new, (), links),
    ensures
        links.leader is None,
        links.registry@.len() == 0,
        call_requires(PeerLinks::new, ()),
{
    assert(links@.registry.len() == links.registry@.len());
    assert(links@.leader is None);
}

/// A node that is named as the leader becomes the leader, in place of any before it, and
/// leaves the other nodes as they are. Any other node joins the others at the end, and
/// leaves the leader as it is.
pub proof fn law_connections_are_kept(
    links: &mut PeerLinks,
    packet: &ConnectionPacket,
    target: String,
    role: Role,
)
    requires
        call_ensures(PeerLinks::connected, (links, packet, target), role),
    ensures
        packet.node_type@ == encode_utf8("leader"@) ==> {
            &&& role == Role::Leader
            &&& final(links).leader matches Some(leader) && leader@ == target@
            &&& final(links).registry@.map_values(|address: String| address@) == old(
                links,
            ).registry@.map_values(|address: String| address@)
        },
        packet.node_type@ != encode_utf8("leader"@) ==> {
            &&& role == Role::Peer
            &&& match old(links).leader {
                Some(leader) => final(links).leader matches Some(kept) && kept@ == leader@,
                None => final(links).leader is None,
            }
            &&& final(links).registry@.map_values(|address: String| address@) == old(
                links,
            ).registry@.map_values(|address: String| address@).push(target@)
        },
        call_requires(PeerLinks::connected, (links, packet, target)),
{
    let (before, after) = (old(links)@, final(links)@);
    assert(after == before.with(packet@, target@));
    assert(after.registry == final(links).registry@.map_values(|address: String| address@));
}

/// The number that digits say, in decimal.
pub open spec fn number_of(digits: Seq<char>) -> nat
    decreases digits.len(),
{
    if digits.len() == 0 {
        0
    } else {
        10 * number_of(digits.drop_last()) + (digits.last() as int - '0' as int) as nat
    }
}

proof fn lemma_decimal_says_the_number(n: nat)
    ensures
        number_of(decimal(n)) == n,
        decimal(n).len() > 0,
        forall|i: int| 0 <= i < decimal(n).len() ==> '0' <= #[trigger] decimal(n)[i] <= '9',
        n > 0 ==> decimal(n)[0] != '0',
        n == 0 ==> decimal(n).len() == 1,
    decreases n,
{
    if n < 10 {
        assert(decimal(n).drop_last() =~= Seq::empty());
        assert(number_of(Seq::<char>::empty()) == 0);
    } else {
        lemma_decimal_says_the_number(n / 10);
        assert(decimal(n).drop_last() =~= decimal(n / 10));
    }
}

proof fn lemma_local_address(port: u16)
    ensures
        local_address(port).take(10) == "127.0.0.1:"@,
        local_address(port).skip(10) == decimal(port as nat),
{
    reveal_strlit("127.0.0.1:");
    assert(local_address(port).take(10) =~= "127.0.0.1:"@);
    assert(local_address(port).skip(10) =~= decimal(port as nat));
}

/// A listening address is the local host, a colon, and the port in decimal digits, with no
/// zero in front.
pub proof fn law_addresses_say_the_port(port: u16, address: String)
    requires
        call_ensures(listen_address, (port,), address),
    ensures
        address@.take(10) == "127.0.0.1:"@,
        address@.len() > 10,
        forall|i: int| 10 <= i < address@.len() ==> '0' <= #[trigger] address@[i] <= '9',
        number_of(address@.skip(10)) == port,
        port > 0 ==> address@[10] != '0',
        port == 0 ==> address@.len() == 11,
        call_requires(listen_address, (port,)),
{
    lemma_decimal_says_the_number(port as nat);
    lemma_local_address(port);
    let digits = decimal(port as nat);
    assert(address@.len() == 10 + digits.len()) by {
        reveal_strlit("127.0.0.1:");
    }
    assert forall|i: int| 10 <= i < address@.len() implies '0' <= #[trigger] address@[i] <= '9' by {
        assert(address@.skip(10)[i - 10] == address@[i]);
        assert('0' <= digits[i - 10] <= '9');
    }
    assert(address@.skip(10)[0] == address@[10]);
}

/// A peer that listens tries no other address. One that does not tries another: the local
/// host with a port of four digits, from 1024 to 9998.
pub proof fn law_tried_addresses(bound: bool, address: Option<String>)
    requires
        call_ensures(next_try, (bound,), address),
    ensures
        bound ==> address is None,
        !bound ==> (address matches Some(address) && address@.len() == 14 && address@.take(10)
            == "127.0.0.1:"@ && 1024 <= number_of(address@.skip(10)) <= 9998 && encode_utf8(
            address@,
        ).len() == 14),
        call_requires(next_try, (bound,)),
{
    if let Some(address) = address {
        let port = choose|port: u16|
            FIRST_PORT <= port < PORT_END && address@ == #[trigger] local_address(port);
        lemma_decimal_says_the_number(port as nat);
        lemma_local_address(port);
        reveal_strlit("127.0.0.1:");
        assert(decimal(port as nat).len() == 4) by {
            reveal_with_fuel(decimal, 5);
        }
    }
}

/// A drawn address is the local host with a port from 1024 to 9998.
pub proof fn law_drawn_addresses(address: String)
    requires
        call_ensures(draw_listen_address, (), address),
    ensures
        address@.take(10) == "127.0.0.1:"@,
        1024 <= number_of(address@.skip(10)) <= 9998,
        call_requires(draw_listen_address, ()),
{
    let port = choose|port: u16|
        FIRST_PORT <= port < PORT_END && address@ == #[trigger] local_address(port);
    lemma_decimal_says_the_number(port as nat);
    lemma_local_address(port);
}

} // verus!
