//! The bootnode: keeps the addresses of the network and what it has committed, and
//! hands both to new peers.
use crate::buffer::{buffer_bytes, buffer_from, buffer_to_vec};
use crate::leader::{lemma_pack_one_more, packed_addresses};
use crate::packet::{law_packet_round_trip, law_packets_are_listed, lemma_packet_len};
use crate::packet::{lemma_packet_stands_first, packets_in, serialize_connection_packet};
use crate::packet::{ConnectionPacket, ConnectionPacketView};
use crate::transaction::{deserialize_transaction, law_text_is_no_transaction};
use crate::transaction::{law_transaction_round_trip, TransactionView};
use vstd::prelude::*;
use vstd::slice::slice_to_vec;
use vstd::utf8::{encode_utf8, is_ascii_chars_encode_utf8};

verus! {

/// Where the leader is reached.
pub const LEADER_ADDRESS: &'static str = "127.0.0.1:8070";

/// How many bytes of a packed list each address takes.
pub const ADDRESS_LEN: usize = 14;

/// The addresses in a packed list. What is left over at its end is no address.
pub open spec fn split_addresses(packed: Seq<u8>) -> Seq<Seq<u8>> {
    Seq::new(
        packed.len() / ADDRESS_LEN as nat,
        |i: int| packed.subrange(i * ADDRESS_LEN, (i + 1) * ADDRESS_LEN),
    )
}

/// How a new peer is told of another peer.
pub open spec fn client_packet(address: Seq<u8>) -> ConnectionPacketView {
    ConnectionPacketView { node_type: encode_utf8("client"@), address }
}

/// How a new peer is told of the leader.
pub open spec fn leader_packet() -> ConnectionPacketView {
    ConnectionPacketView {
        node_type: encode_utf8("leader"@),
        address: encode_utf8(LEADER_ADDRESS@),
    }
}

/// How long the texts are that packets hold.
proof fn lemma_text_lengths()
    ensures
        encode_utf8("client"@).len() == 6,
        encode_utf8("leader"@).len() == 6,
        encode_utf8(LEADER_ADDRESS@).len() == ADDRESS_LEN,
{
    reveal_strlit("client");
    reveal_strlit("leader");
    reveal_strlit("127.0.0.1:8070");
    is_ascii_chars_encode_utf8("client"@);
    is_ascii_chars_encode_utf8("leader"@);
    is_ascii_chars_encode_utf8(LEADER_ADDRESS@);
}

/// The packets for the addresses of a packed list.
pub open spec fn client_packets(packed: Seq<u8>) -> Seq<Seq<u8>> {
    split_addresses(packed).map_values(|address: Seq<u8>| client_packet(address).wire())
}

proof fn lemma_split_one_more(packed: Seq<u8>)
    requires
        packed.len() >= ADDRESS_LEN,
    ensures
        client_packets(packed) == seq![client_packet(packed.take(ADDRESS_LEN as int)).wire()]
            + client_packets(packed.skip(ADDRESS_LEN as int)),
{
    let n = ADDRESS_LEN as int;
    let (whole, rest) = (split_addresses(packed), split_addresses(packed.skip(n)));
    assert(whole.len() == rest.len() + 1);
    assert(whole[0] =~= packed.take(n));
    assert forall|i: int| 0 <= i < rest.len() implies whole[i + 1] == #[trigger] rest[i] by {
        assert(whole[i + 1] =~= rest[i]);
    }
    assert(client_packets(packed) =~= seq![client_packet(packed.take(n)).wire()] + client_packets(
        packed.skip(n),
    ));
}

/// What the bootnode sends to a new peer, a frame each: the leader's packet, the
/// packets of all known peers, and every transaction that was committed.
#[derive(Debug, PartialEq, Eq)]
pub struct Introduction {
    pub leader: Vec<u8>,
    pub addresses: Vec<u8>,
    pub history: Vec<Vec<u8>>,
}

impl Introduction {
    /// The frames in the order in which they are sent.
    pub fn frames(self) -> (frames: Vec<Vec<u8>>)
        ensures
            frames@ == seq![self.leader, self.addresses] + self.history@,
    {
        let Introduction { leader, addresses, mut history } = self;
        let mut frames: Vec<Vec<u8>> = Vec::new();
        frames.push(leader);
        frames.push(addresses);
        frames.append(&mut history);
        frames
    }
}

/// The known peers, each as the packet that tells of it, and the committed
/// transactions, as they are sent.
#[derive(Debug)]
pub struct AddressDirectory {
    list: Vec<Vec<u8>>,
    updated: bool,
    payload: Vec<u8>,
    history: Vec<Vec<u8>>,
}

impl View for AddressDirectory {
    type V = Seq<Seq<u8>>;

    /// The packets of the known peers, in the order of the list that named them.
    closed spec fn view(&self) -> Seq<Seq<u8>> {
        self.list@.map_values(|packet: Vec<u8>| packet@)
    }
}

impl AddressDirectory {
    /// The transactions that were committed, as they are sent, in their order.
    pub closed spec fn history(&self) -> Seq<Seq<u8>> {
        self.history@.map_values(|tx: Vec<u8>| tx@)
    }

    /// The list is marked as updated once it holds something, and until then
    /// there is nothing to send.
    pub closed spec fn well_formed(&self) -> bool {
        &&& self.updated == (self.list@.len() > 0)
        &&& !self.updated ==> self.payload@.len() == 0
    }

    /// A directory that knows nobody and of nothing that was committed.
    pub fn new() -> (directory: AddressDirectory)
        ensures
            directory.well_formed(),
            directory@ == Seq::<Seq<u8>>::empty(),
            directory.history() == Seq::<Seq<u8>>::empty(),
    {
        let directory = AddressDirectory {
            list: Vec::new(),
            updated: false,
            payload: Vec::new(),
            history: Vec::new(),
        };
        assert(directory@ =~= Seq::<Seq<u8>>::empty());
        assert(directory.history() =~= Seq::<Seq<u8>>::empty());
        directory
    }

    /// Takes over the peers of a packed list that the leader sent, in place of those
    /// known before.
    pub fn update(&mut self, addr_list: &[u8])
        requires
            old(self).well_formed(),
        ensures
            final(self).well_formed(),
            final(self)@ == client_packets(addr_list@),
            final(self).history() == old(self).history(),
    {
        self.list.clear();
        self.updated = false;
        self.payload.clear();
        let mut rest = buffer_from(addr_list);
        assert(self@ + client_packets(addr_list@) =~= client_packets(addr_list@));
        while rest.len() >= ADDRESS_LEN
            invariant
                self.well_formed(),
                self.history() == old(self).history(),
                self@ + client_packets(buffer_bytes(rest)) == client_packets(addr_list@),
            decreases buffer_bytes(rest).len(),
        {
            let ghost (packets, before) = (self@, buffer_bytes(rest));
            let front = rest.split_to(ADDRESS_LEN);
            let packet = ConnectionPacket {
                node_type: slice_to_vec("client".as_bytes()),
                address: buffer_to_vec(&front),
            };
            assert(packet@ =~= client_packet(before.take(ADDRESS_LEN as int)));
            proof {
                lemma_text_lengths();
                lemma_packet_len(packet@);
            }
            self.list.push(serialize_connection_packet(&packet));
            self.updated = true;
            proof {
                lemma_split_one_more(before);
                assert(self@ =~= packets.push(packet@.wire()));
                assert(self@ + client_packets(buffer_bytes(rest)) =~= packets + client_packets(before));
            }
        }
        assert(client_packets(buffer_bytes(rest)) =~= Seq::empty());
        assert(self@ =~= client_packets(addr_list@));
    }

    /// Takes a frame that the leader sent: a transaction that was committed joins the
    /// history, and anything else is a packed list of peers.
    pub fn learn(&mut self, frame: &[u8])
        requires
            old(self).well_formed(),
        ensures
            final(self).well_formed(),
            final(self)@ == (if TransactionView::read(frame@) is Some {
                old(self)@
            } else {
                client_packets(frame@)
            }),
            final(self).history() == (if TransactionView::read(frame@) is Some {
                old(self).history().push(frame@)
            } else {
                old(self).history()
            }),
    {
        match deserialize_transaction(frame) {
            Ok(_) => {
                self.history.push(slice_to_vec(frame));
                assert(self.history() =~= old(self).history().push(frame@));
            },
            Err(_) => self.update(frame),
        }
    }

    /// What to send to a peer that has just connected.
    pub fn introduce(&mut self) -> (introduction: Introduction)
        requires
            old(self).well_formed(),
        ensures
            final(self).well_formed(),
            final(self)@ == old(self)@,
            final(self).history() == old(self).history(),
            introduction.leader@ == leader_packet().wire(),
            introduction.addresses@ == old(self)@.flatten(),
            introduction.history@.map_values(|tx: Vec<u8>| tx@) == old(self).history(),
    {
        let packet = ConnectionPacket {
            node_type: slice_to_vec("leader".as_bytes()),
            address: slice_to_vec(LEADER_ADDRESS.as_bytes()),
        };
        assert(packet@ =~= leader_packet());
        proof {
            lemma_text_lengths();
            lemma_packet_len(packet@);
        }
        let leader = serialize_connection_packet(&packet);
        let ghost packets = self@;
        if self.updated {
            self.payload.clear();
            assert(packets.take(0) =~= Seq::empty());
            let known = self.list.len();
            for i in 0..known
                invariant
                    known == self.list@.len(),
                    self@ == packets,
                    self.history() == old(self).history(),
                    packets.len() == self.list@.len(),
                    self.well_formed(),
                    self.updated,
                    self.payload@ == packets.take(i as int).flatten(),
            {
                let ghost sent = self.payload@;
                self.payload.extend_from_slice(self.list[i].as_slice());
                proof {
                    let one = self.list@[i as int]@;
                    packets.take(i as int).lemma_flatten_push(one);
                    assert(packets.take(i as int).push(one) =~= packets.take(i + 1));
                    assert(self.payload@ =~= sent + one);
                }
            }
            assert(packets.take(packets.len() as int) =~= packets);
        } else {
            assert(packets =~= Seq::empty());
            assert(self.payload@ =~= Seq::empty());
        }
        let mut history: Vec<Vec<u8>> = Vec::new();
        let ghost committed = self.history();
        assert(committed.take(0) =~= history@.map_values(|tx: Vec<u8>| tx@));
        for i in 0..self.history.len()
            invariant
                committed == self.history(),
                history@.map_values(|tx: Vec<u8>| tx@) == committed.take(i as int),
        {
            let ghost before = history@;
            history.push(slice_to_vec(self.history[i].as_slice()));
            assert(history@.map_values(|tx: Vec<u8>| tx@) =~= before.map_values(
                |tx: Vec<u8>| tx@,
            ).push(committed[i as int]));
            assert(committed.take(i as int).push(committed[i as int]) =~= committed.take(i + 1));
        }
        assert(committed.take(committed.len() as int) =~= committed);
        Introduction { leader, addresses: slice_to_vec(self.payload.as_slice()), history }
    }
}

proof fn lemma_packed_len(registry: Seq<Seq<char>>)
    requires
        forall|i: int| 0 <= i < registry.len() ==> encode_utf8(#[trigger] registry[i]).len() == ADDRESS_LEN,
    ensures
        packed_addresses(registry).len() == registry.len() * ADDRESS_LEN,
    decreases registry.len(),
{
    if registry.len() == 0 {
        assert(registry.map_values(|address: Seq<char>| encode_utf8(address)) =~= Seq::empty());
    } else {
        let (init, last) = (registry.drop_last(), registry.last());
        assert forall|i: int| 0 <= i < init.len() implies encode_utf8(#[trigger] init[i]).len()
            == ADDRESS_LEN by {
            assert(registry[i] == init[i]);
        }
        lemma_packed_len(init);
        lemma_pack_one_more(init, last);
        assert(init.push(last) =~= registry);
    }
}

/// The bootnode finds in a packed list the addresses that the leader packed, where
/// each takes as many bytes as the bootnode expects of one.
pub proof fn law_addresses_survive_packing(registry: Seq<Seq<char>>)
    requires
        forall|i: int| 0 <= i < registry.len() ==> encode_utf8(#[trigger] registry[i]).len() == ADDRESS_LEN,
    ensures
        split_addresses(packed_addresses(registry)) == registry.map_values(
            |address: Seq<char>| encode_utf8(address),
        ),
    decreases registry.len(),
{
    lemma_packed_len(registry);
    let packed = packed_addresses(registry);
    if registry.len() > 0 {
        let (init, last) = (registry.drop_last(), registry.last());
        assert forall|i: int| 0 <= i < init.len() implies encode_utf8(#[trigger] init[i]).len()
            == ADDRESS_LEN by {
            assert(registry[i] == init[i]);
        }
        law_addresses_survive_packing(init);
        lemma_packed_len(init);
        lemma_pack_one_more(init, last);
        assert(init.push(last) =~= registry);
        let before = packed_addresses(init);
        assert(packed == before + encode_utf8(last));
        let (found, found_before) = (split_addresses(packed), split_addresses(before));
        assert(found.len() == registry.len() && found_before.len() == init.len());
        assert forall|i: int| 0 <= i < registry.len() implies #[trigger] found[i] == encode_utf8(registry[i]) by {
            if i < init.len() {
                assert(found[i] =~= found_before[i]);
                assert(found_before[i] == encode_utf8(init[i]));
            } else {
                assert(found[i] =~= encode_utf8(last));
            }
        }
    }
    assert(split_addresses(packed) =~= registry.map_values(|address: Seq<char>| encode_utf8(address)));
}

/// The peers that the leader registered are the peers that the bootnode comes to
/// know, where each address takes as many bytes as the bootnode expects of one.
pub proof fn law_registered_peers_become_known(registry: Seq<Seq<char>>)
    requires
        forall|i: int| 0 <= i < registry.len() ==> encode_utf8(#[trigger] registry[i]).len() == ADDRESS_LEN,
    ensures
        client_packets(packed_addresses(registry)) == registry.map_values(
            |address: Seq<char>| client_packet(encode_utf8(address)).wire(),
        ),
{
    law_addresses_survive_packing(registry);
    assert(client_packets(packed_addresses(registry)) =~= registry.map_values(
        |address: Seq<char>| client_packet(encode_utf8(address)).wire(),
    ));
}

/// Every introduction tells the new peer who leads and where.
pub proof fn law_introduction_names_the_leader()
    ensures
        ConnectionPacketView::read(leader_packet().wire()) == Some(leader_packet()),
{
    lemma_text_lengths();
    lemma_packet_len(leader_packet());
    law_packet_round_trip(leader_packet(), Seq::empty());
    assert(leader_packet().wire() + Seq::empty() =~= leader_packet().wire());
}

/// A new peer finds in the list that it gets all known peers, in their order, and
/// nobody else.
pub proof fn law_introduction_lists_all_peers(packed: Seq<u8>)
    requires
        client_packets(packed).flatten().len() <= u64::MAX,
    ensures
        packets_in(client_packets(packed).flatten()) == split_addresses(packed).map_values(
            |address: Seq<u8>| client_packet(address),
        ),
{
    let packets = split_addresses(packed).map_values(|address: Seq<u8>| client_packet(address));
    let nothing = Seq::<u8>::empty();
    assert(packets.map_values(|packet: ConnectionPacketView| packet.wire()) =~= client_packets(
        packed,
    ));
    assert(client_packets(packed).flatten() + nothing =~= client_packets(packed).flatten());
    law_packets_are_listed(packets, nothing);
    law_empty_introduction_is_skipped();
    assert(packets + packets_in(nothing) =~= packets);
}

/// A new peer learns of every peer that registered with the leader, where each
/// address takes as many bytes as the bootnode expects of one.
pub proof fn law_registered_peers_are_introduced(registry: Seq<Seq<char>>)
    requires
        forall|i: int| 0 <= i < registry.len() ==> encode_utf8(#[trigger] registry[i]).len() == ADDRESS_LEN,
        client_packets(packed_addresses(registry)).flatten().len() <= u64::MAX,
    ensures
        packets_in(client_packets(packed_addresses(registry)).flatten()) == registry.map_values(
            |address: Seq<char>| client_packet(encode_utf8(address)),
        ),
{
    law_addresses_survive_packing(registry);
    law_introduction_lists_all_peers(packed_addresses(registry));
    assert(split_addresses(packed_addresses(registry)).map_values(
        |address: Seq<u8>| client_packet(address),
    ) =~= registry.map_values(|address: Seq<char>| client_packet(encode_utf8(address))));
}

/// While no peer is known, the list that a new peer gets holds no packet.
pub proof fn law_empty_introduction_is_skipped()
    ensures
        packets_in(Seq::<u8>::empty()) == Seq::<ConnectionPacketView>::empty(),
        Seq::<Seq<u8>>::empty().flatten() == Seq::<u8>::empty(),
{
    lemma_packet_stands_first(Seq::<u8>::empty());
}

/// What the leader tells the bootnode.
#[verifier::ext_equal]
pub enum News {
    /// A transaction was committed.
    Committed(TransactionView),
    /// A peer registered; these are the registered peers.
    Registered(Seq<Seq<char>>),
}

impl News {
    /// The news as they are sent, in a frame.
    pub open spec fn frame(self) -> Seq<u8> {
        match self {
            News::Committed(tx) => tx.wire(),
            News::Registered(registry) => packed_addresses(registry),
        }
    }

    /// The news fit in a frame, and a registry holds addresses: plain characters, and
    /// none of them the character zero.
    pub open spec fn well_formed(self) -> bool {
        &&& self.frame().len() <= u16::MAX
        &&& match self {
            News::Committed(tx) => tx.well_formed(),
            News::Registered(registry) => forall|i: int, k: int|
                0 <= i < registry.len() && 0 <= k < registry[i].len() ==> '\0'
                    < #[trigger] registry[i][k] <= '\u{7f}',
        }
    }
}

/// The history after frames of the leader, where there was none before.
pub open spec fn history_of(frames: Seq<Seq<u8>>) -> Seq<Seq<u8>>
    decreases frames.len(),
{
    if frames.len() == 0 {
        Seq::empty()
    } else if TransactionView::read(frames.last()) is Some {
        history_of(frames.drop_last()).push(frames.last())
    } else {
        history_of(frames.drop_last())
    }
}

/// The packets of the known peers after frames of the leader, where nobody was known
/// before.
pub open spec fn known_after(frames: Seq<Seq<u8>>) -> Seq<Seq<u8>>
    decreases frames.len(),
{
    if frames.len() == 0 {
        Seq::empty()
    } else if TransactionView::read(frames.last()) is Some {
        known_after(frames.drop_last())
    } else {
        client_packets(frames.last())
    }
}

/// The transactions that were committed, by the news of it.
pub open spec fn committed_in(news: Seq<News>) -> Seq<TransactionView>
    decreases news.len(),
{
    if news.len() == 0 {
        Seq::empty()
    } else {
        match news.last() {
            News::Committed(tx) => committed_in(news.drop_last()).push(tx),
            News::Registered(_) => committed_in(news.drop_last()),
        }
    }
}

/// The peers that are registered, by the news of it.
pub open spec fn registered_in(news: Seq<News>) -> Seq<Seq<char>>
    decreases news.len(),
{
    if news.len() == 0 {
        Seq::empty()
    } else {
        match news.last() {
            News::Committed(_) => registered_in(news.drop_last()),
            News::Registered(registry) => registry,
        }
    }
}

proof fn lemma_packed_bytes(registry: Seq<Seq<char>>)
    requires
        forall|i: int, k: int|
            0 <= i < registry.len() && 0 <= k < registry[i].len() ==> '\0' < #[trigger] registry[i][k]
                <= '\u{7f}',
    ensures
        forall|b: int|
            0 <= b < packed_addresses(registry).len() ==> #[trigger] packed_addresses(registry)[b] != 0,
    decreases registry.len(),
{
    if registry.len() == 0 {
        assert(registry.map_values(|address: Seq<char>| encode_utf8(address)) =~= Seq::empty());
    } else {
        let (init, last) = (registry.drop_last(), registry.last());
        assert forall|i: int, k: int| 0 <= i < init.len() && 0 <= k < init[i].len() implies '\0'
            < #[trigger] init[i][k] <= '\u{7f}' by {
            assert(registry[i][k] == init[i][k]);
        }
        lemma_packed_bytes(init);
        lemma_pack_one_more(init, last);
        assert(init.push(last) =~= registry);
        assert forall|k: int| 0 <= k < last.len() implies '\0' < #[trigger] last[k] <= '\u{7f}' by {
            assert(registry[registry.len() - 1][k] == last[k]);
        }
        is_ascii_chars_encode_utf8(last);
    }
}

/// The bootnode takes no list of peers for a transaction, and a committed transaction
/// for the one that it is.
pub proof fn law_news_are_told_apart(news: News)
    requires
        news.well_formed(),
    ensures
        TransactionView::read(news.frame()) == (match news {
            News::Committed(tx) => Some(tx),
            News::Registered(_) => None,
        }),
{
    match news {
        News::Committed(tx) => {
            law_transaction_round_trip(tx, Seq::empty());
            assert(tx.wire() + Seq::empty() =~= tx.wire());
        },
        News::Registered(registry) => {
            lemma_packed_bytes(registry);
            law_text_is_no_transaction(news.frame());
        },
    }
}

proof fn lemma_news_before(news: Seq<News>)
    requires
        news.len() > 0,
        forall|i: int| 0 <= i < news.len() ==> (#[trigger] news[i]).well_formed(),
    ensures
        news.last().well_formed(),
        forall|i: int|
            0 <= i < news.drop_last().len() ==> (#[trigger] news.drop_last()[i]).well_formed(),
        news.map_values(|one: News| one.frame()).drop_last() == news.drop_last().map_values(
            |one: News| one.frame(),
        ),
{
    assert(news[news.len() - 1].well_formed());
    assert forall|i: int| 0 <= i < news.drop_last().len() implies (
    #[trigger] news.drop_last()[i]).well_formed() by {
        assert(news[i].well_formed());
    }
    assert(news.map_values(|one: News| one.frame()).drop_last() =~= news.drop_last().map_values(
        |one: News| one.frame(),
    ));
}

/// A new peer is sent the full history: whatever news the leader sends, and in
/// whatever order, the history that comes of it is every transaction that was
/// committed, and the known peers are those that registered.
pub proof fn law_history_is_complete(news: Seq<News>)
    requires
        forall|i: int| 0 <= i < news.len() ==> (#[trigger] news[i]).well_formed(),
    ensures
        history_of(news.map_values(|one: News| one.frame())) == committed_in(news).map_values(
            |tx: TransactionView| tx.wire(),
        ),
        known_after(news.map_values(|one: News| one.frame())) == client_packets(
            packed_addresses(registered_in(news)),
        ),
    decreases news.len(),
{
    let frames = news.map_values(|one: News| one.frame());
    if news.len() == 0 {
        assert(history_of(frames) =~= committed_in(news).map_values(|tx: TransactionView| tx.wire()));
        assert(registered_in(news).map_values(|address: Seq<char>| encode_utf8(address))
            =~= Seq::empty());
        assert(client_packets(packed_addresses(registered_in(news))) =~= Seq::empty());
    } else {
        lemma_news_before(news);
        law_history_is_complete(news.drop_last());
        law_news_are_told_apart(news.last());
        assert(frames.last() == news.last().frame());
        let before = committed_in(news.drop_last());
        if let News::Committed(tx) = news.last() {
            assert(before.push(tx).map_values(|tx: TransactionView| tx.wire()) =~= before.map_values(
                |tx: TransactionView| tx.wire(),
            ).push(tx.wire()));
        }
    }
}

/// What a new peer reads in the history are the transactions that were committed.
pub proof fn law_history_reads_as_committed(committed: Seq<TransactionView>, i: int)
    requires
        0 <= i < committed.len(),
        committed[i].well_formed(),
        committed[i].wire().len() <= u64::MAX,
    ensures
        TransactionView::read(committed.map_values(|tx: TransactionView| tx.wire())[i]) == Some(
            committed[i],
        ),
{
    law_transaction_round_trip(committed[i], Seq::empty());
    assert(committed[i].wire() + Seq::empty() =~= committed[i].wire());
}

/// The known peers are those of the list that came last: one for every fourteen bytes of
/// it, in its order, each told of by a packet of the kind `client` with those bytes as its
/// address. What was committed stays as it is.
pub proof fn law_list_tells_of_every_peer(directory: &mut AddressDirectory, addr_list: &[u8])
    requires
        call_ensures(AddressDirectory::update, (directory, addr_list), ()),
    ensures
        final(directory)@.len() == addr_list@.len() / 14,
        forall|i: int|
            0 <= i < addr_list@.len() / 14 ==> #[trigger] final(directory)@[i] == (ConnectionPacketView {
                node_type: encode_utf8("client"@),
                address: addr_list@.subrange(14 * i, 14 * i + 14),
            }).wire(),
        final(directory).history() == old(directory).history(),
        final(directory).well_formed(),
        old(directory).well_formed() ==> call_requires(
            AddressDirectory::update,
            (directory, addr_list),
        ),
{
}

/// A frame of the leader that starts with a transaction adds just this frame to what was
/// committed, and any other replaces the known peers by those in it: one for every fourteen
/// bytes, in order.
pub proof fn law_frames_of_the_leader_are_learned(
    directory: &mut AddressDirectory,
    frame: &[u8],
    tx: TransactionView,
    rest: Seq<u8>,
)
    requires
        call_ensures(AddressDirectory::learn, (directory, frame), ()),
        tx.tx_hash.len() == 32,
        frame@.len() <= u64::MAX,
    ensures
        frame@ == tx.wire() + rest ==> final(directory).history() == old(directory).history().push(frame@)
            && final(directory)@ == old(directory)@,
        final(directory).history() == old(directory).history() || final(directory).history() == old(
            directory,
        ).history().push(frame@),
        final(directory).history() == old(directory).history() ==> {
            &&& !tx.wire().is_prefix_of(frame@)
            &&& final(directory)@.len() == frame@.len() / 14
            &&& forall|i: int|
                0 <= i < frame@.len() / 14 ==> #[trigger] final(directory)@[i] == (ConnectionPacketView {
                    node_type: encode_utf8("client"@),
                    address: frame@.subrange(14 * i, 14 * i + 14),
                }).wire()
        },
        final(directory).well_formed(),
        old(directory).well_formed() ==> call_requires(AddressDirectory::learn, (directory, frame)),
{
    assert(old(directory).history().push(frame@).len() != old(directory).history().len());
    if frame@ == tx.wire() + rest {
        law_transaction_round_trip(tx, rest);
    }
    if TransactionView::read(frame@) is None {
        assert(!tx.starts(frame@));
    }
}

/// A new directory knows nobody and of nothing that was committed, and what it sends to a
/// new peer tells of the leader alone.
pub proof fn law_new_directory_tells_of_the_leader(
    directory: &mut AddressDirectory,
    introduction: Introduction,
)
    requires
        call_ensures(AddressDirectory::new, (), *old(directory)),
        call_ensures(AddressDirectory::introduce, (directory,), introduction),
    ensures
        introduction.addresses@.len() == 0,
        introduction.history@.len() == 0,
        ConnectionPacketView::read(introduction.leader@) == Some(
            ConnectionPacketView {
                node_type: encode_utf8("leader"@),
                address: encode_utf8("127.0.0.1:8070"@),
            },
        ),
        call_requires(AddressDirectory::new, ()),
        call_requires(AddressDirectory::introduce, (directory,)),
{
    law_introduction_names_the_leader();
    assert(introduction.history@.map_values(|tx: Vec<u8>| tx@).len() == introduction.history@.len());
}

/// Whoever joins after a list of the leader came in is sent the leader's packet and a frame
/// in which all peers of the list are read, in order and nobody else: one for every fourteen
/// bytes of the list. This holds of lists of any length.
pub proof fn law_new_peers_learn_of_all_listed(
    directory: &mut AddressDirectory,
    addr_list: &[u8],
    later: &mut AddressDirectory,
    introduction: Introduction,
)
    requires
        call_ensures(AddressDirectory::update, (directory, addr_list), ()),
        *old(later) == *final(directory),
        call_ensures(AddressDirectory::introduce, (later,), introduction),
        introduction.addresses@.len() <= u64::MAX,
    ensures
        introduction.leader@ == (ConnectionPacketView {
            node_type: encode_utf8("leader"@),
            address: encode_utf8("127.0.0.1:8070"@),
        }).wire(),
        packets_in(introduction.addresses@).len() == addr_list@.len() / 14,
        forall|i: int|
            0 <= i < addr_list@.len() / 14 ==> #[trigger] packets_in(introduction.addresses@)[i] == (
            ConnectionPacketView {
                node_type: encode_utf8("client"@),
                address: addr_list@.subrange(14 * i, 14 * i + 14),
            }),
        final(later)@ == old(later)@,
        final(later).history() == old(later).history(),
        call_requires(AddressDirectory::introduce, (later,)),
{
    law_introduction_lists_all_peers(addr_list@);
}

/// A transaction that was committed is sent to whoever joins after it was learned of, behind
/// all that were sent to those who joined before it.
pub proof fn law_new_peers_are_sent_what_was_committed(
    before: &mut AddressDirectory,
    sent_before: Introduction,
    directory: &mut AddressDirectory,
    frame: &[u8],
    after: &mut AddressDirectory,
    sent_after: Introduction,
    tx: TransactionView,
)
    requires
        call_ensures(AddressDirectory::introduce, (before,), sent_before),
        *old(directory) == *final(before),
        call_ensures(AddressDirectory::learn, (directory, frame), ()),
        *old(after) == *final(directory),
        call_ensures(AddressDirectory::introduce, (after,), sent_after),
        tx.tx_hash.len() == 32,
        frame@ == tx.wire(),
        frame@.len() <= u64::MAX,
    ensures
        sent_after.history@.len() == sent_before.history@.len() + 1,
        sent_after.history@.last()@ == tx.wire(),
        TransactionView::read(sent_after.history@.last()@) == Some(tx),
        forall|i: int|
            0 <= i < sent_before.history@.len() ==> (#[trigger] sent_after.history@[i])@
                == sent_before.history@[i]@,
        sent_after.addresses@ == sent_before.addresses@,
{
    law_transaction_round_trip(tx, Seq::empty());
    assert(tx.wire() + Seq::empty() =~= tx.wire());
    let views_before = sent_before.history@.map_values(|tx: Vec<u8>| tx@);
    let views_after = sent_after.history@.map_values(|tx: Vec<u8>| tx@);
    assert(views_after == views_before.push(frame@));
    assert(views_after.len() == sent_after.history@.len());
    assert(views_after.last() == sent_after.history@.last()@);
    assert forall|i: int| 0 <= i < sent_before.history@.len() implies (
    #[trigger] sent_after.history@[i])@ == sent_before.history@[i]@ by {
        assert(views_after[i] == sent_after.history@[i]@);
        assert(views_before[i] == sent_before.history@[i]@);
    }
}

/// An introduction is sent in frames: the leader's packet, the packets of the peers, and
/// each committed transaction, in this order.
pub proof fn law_introduction_is_sent_in_order(introduction: Introduction, frames: Vec<Vec<u8>>)
    requires
        call_ensures(Introduction::frames, (introduction,), frames),
    ensures
        frames@.len() == 2 + introduction.history@.len(),
        frames@[0] == introduction.leader,
        frames@[1] == introduction.addresses,
        forall|i: int|
            0 <= i < introduction.history@.len() ==> frames@[i + 2] == #[trigger] introduction.history@[i],
        call_requires(Introduction::frames, (introduction,)),
{
}

proof fn lemma_list_len(packed: Seq<u8>)
    ensures
        client_packets(packed).flatten().len() == 36 * (packed.len() / 14),
    decreases packed.len(),
{
    if packed.len() < 14 {
        assert(client_packets(packed) =~= Seq::empty());
    } else {
        lemma_split_one_more(packed);
        let first = client_packet(packed.take(14)).wire();
        assert(client_packets(packed).drop_first() =~= client_packets(packed.skip(14)));
        lemma_text_lengths();
        lemma_packet_len(client_packet(packed.take(14)));
        lemma_list_len(packed.skip(14));
    }
}

/// The list of the known peers takes thirty-six bytes for each.
pub proof fn law_lists_grow_by_the_peer(
    directory: &mut AddressDirectory,
    addr_list: &[u8],
    later: &mut AddressDirectory,
    introduction: Introduction,
)
    requires
        call_ensures(AddressDirectory::update, (directory, addr_list), ()),
        *old(later) == *final(directory),
        call_ensures(AddressDirectory::introduce, (later,), introduction),
    ensures
        introduction.addresses@.len() == 36 * (addr_list@.len() / 14),
{
    lemma_list_len(addr_list@);
}

} // verus!
