use fortress_protocol::bootnode::{AddressDirectory, LEADER_ADDRESS};
use fortress_protocol::leader::{ConsensusToolsStruct, RegistrationRequest};
use fortress_protocol::ledger::Ledger;
use fortress_protocol::packet::{serialize_connection_packet, ConnectionPacket};
use fortress_protocol::peer::{
    draw_listen_address, follow_leads, hear, listen_address, next_try, Heard, Lead, PeerLinks, Role,
};
use fortress_protocol::transaction::{serialize_transaction, Transaction};

fn transaction(seq_counter: u32, value: &[u8]) -> Transaction {
    Transaction {
        consensus_stage: String::from("PREPARE"),
        tx_hash: [seq_counter as u8; 32],
        seq_counter,
        view_number: 0,
        client_key: 1,
        source: b"127.0.0.1:4000".to_vec(),
        key: b"key".to_vec(),
        value: value.to_vec(),
    }
}

fn client(address: &[u8]) -> ConnectionPacket {
    ConnectionPacket { node_type: b"client".to_vec(), address: address.to_vec() }
}

fn leader(address: &[u8]) -> ConnectionPacket {
    ConnectionPacket { node_type: b"leader".to_vec(), address: address.to_vec() }
}

fn all_dialed(frame: &[u8]) -> Vec<(ConnectionPacket, String)> {
    follow_leads(frame)
        .into_iter()
        .map(|lead| match lead {
            Lead::Dial { packet, target } => (packet, target),
            Lead::Skip => panic!("skipped"),
        })
        .collect()
}

fn dialed(frame: &[u8]) -> (ConnectionPacket, String) {
    let mut all = all_dialed(frame);
    assert_eq!(all.len(), 1);
    all.remove(0)
}

fn assert_skipped(frame: &[u8]) {
    let leads = follow_leads(frame);
    assert_eq!(leads.len(), 1);
    assert!(matches!(leads[0], Lead::Skip));
}

#[test]
fn first_peer_is_introduced_to_the_leader_alone() {
    let mut directory = AddressDirectory::new();
    let introduction = directory.introduce();
    assert_eq!(
        introduction.leader,
        b"\x06\0\0\0\0\0\0\0leader\x0e\0\0\0\0\0\0\x00127.0.0.1:8070"
    );
    assert!(introduction.addresses.is_empty());
    assert_skipped(&introduction.addresses);
}

#[test]
fn peers_are_introduced_to_all_known_peers() {
    let mut directory = AddressDirectory::new();
    directory.update(b"127.0.0.1:1111127.0.0.1:2222");
    let mut expected = serialize_connection_packet(&client(b"127.0.0.1:1111"));
    expected.extend(serialize_connection_packet(&client(b"127.0.0.1:2222")));
    assert_eq!(directory.introduce().addresses, expected);
    assert_eq!(directory.introduce().addresses, expected);
}

#[test]
fn list_of_the_leader_replaces_the_known_peers() {
    let mut directory = AddressDirectory::new();
    directory.update(b"127.0.0.1:1111");
    assert_eq!(directory.introduce().addresses.len(), 36);
    directory.update(b"127.0.0.1:1111127.0.0.1:2222");
    assert_eq!(directory.introduce().addresses.len(), 72);
    directory.update(b"127.0.0.1:3333");
    assert_eq!(
        directory.introduce().addresses,
        serialize_connection_packet(&client(b"127.0.0.1:3333"))
    );
    directory.update(b"");
    assert!(directory.introduce().addresses.is_empty());
}

#[test]
fn what_is_left_over_in_a_packed_list_is_no_address() {
    let mut directory = AddressDirectory::new();
    directory.update(b"127.0.0.1:111");
    assert!(directory.introduce().addresses.is_empty());
    directory.update(b"127.0.0.1:1111127.0.0.1:");
    assert_eq!(
        directory.introduce().addresses,
        serialize_connection_packet(&client(b"127.0.0.1:1111"))
    );
    directory.update(b"127.0.0.1:");
    assert!(directory.introduce().addresses.is_empty());
}

#[test]
fn registered_peers_become_known() {
    let mut tools = ConsensusToolsStruct::new();
    tools.register(RegistrationRequest { addr: listen_address(1024) });
    let packed = tools.register(RegistrationRequest { addr: listen_address(9998) });
    let mut directory = AddressDirectory::new();
    directory.update(&packed);
    let mut expected = serialize_connection_packet(&client(b"127.0.0.1:1024"));
    expected.extend(serialize_connection_packet(&client(b"127.0.0.1:9998")));
    assert_eq!(directory.introduce().addresses, expected);
}

#[test]
fn new_peer_dials_the_leader() {
    let introduction = AddressDirectory::new().introduce();
    let (packet, target) = dialed(&introduction.leader);
    assert_eq!(target, LEADER_ADDRESS);
    assert_eq!(packet, leader(LEADER_ADDRESS.as_bytes()));
    let mut links = PeerLinks::new();
    assert_eq!(links.connected(&packet, target), Role::Leader);
    assert_eq!(links.leader.as_deref(), Some(LEADER_ADDRESS));
    assert!(links.registry.is_empty());
}

#[test]
fn every_peer_of_a_list_is_dialed() {
    let mut directory = AddressDirectory::new();
    directory.update(b"127.0.0.1:1111127.0.0.1:2222127.0.0.1:3333");
    let all = all_dialed(&directory.introduce().addresses);
    let addresses = ["127.0.0.1:1111", "127.0.0.1:2222", "127.0.0.1:3333"];
    assert_eq!(all.len(), 3);
    for ((packet, target), address) in all.into_iter().zip(addresses) {
        assert_eq!(target, address);
        assert_eq!(packet, client(address.as_bytes()));
    }
}

#[test]
fn list_is_followed_up_to_the_first_bad_packet() {
    let mut list = serialize_connection_packet(&leader(b"a"));
    list.extend(serialize_connection_packet(&client(b"b")));
    list.extend(b"client");
    let targets: Vec<String> = all_dialed(&list).into_iter().map(|(_, target)| target).collect();
    assert_eq!(targets, ["a", "b"]);
}

#[test]
fn registered_peers_are_dialed_by_a_new_peer() {
    let mut tools = ConsensusToolsStruct::new();
    tools.register(RegistrationRequest { addr: listen_address(1024) });
    let packed = tools.register(RegistrationRequest { addr: listen_address(9998) });
    let mut directory = AddressDirectory::new();
    directory.update(&packed);
    let all = all_dialed(&directory.introduce().addresses);
    let mut links = PeerLinks::new();
    for (packet, target) in all {
        assert_eq!(links.connected(&packet, target), Role::Peer);
    }
    assert_eq!(links.registry, tools.registry);
    assert!(links.leader.is_none());
}

#[test]
fn bad_packets_are_skipped() {
    assert_skipped(b"");
    assert_skipped(b"leader");
}

#[test]
fn addresses_that_are_no_text_are_dialed_with_replacements() {
    let (_, target) = dialed(&serialize_connection_packet(&client(b"a\xffb")));
    assert_eq!(target, "a\u{fffd}b");
}

#[test]
fn last_named_leader_leads_and_others_are_kept() {
    let mut links = PeerLinks::new();
    assert_eq!(links.connected(&client(b"x"), String::from("x")), Role::Peer);
    assert!(links.leader.is_none());
    links.connected(&leader(b"y"), String::from("y"));
    links.connected(&client(b"z"), String::from("z"));
    links.connected(&leader(b"w"), String::from("w"));
    let odd = ConnectionPacket { node_type: b"leader ".to_vec(), address: b"v".to_vec() };
    assert_eq!(links.connected(&odd, String::from("v")), Role::Peer);
    assert_eq!(links.leader.as_deref(), Some("w"));
    assert_eq!(links.registry, ["x", "z", "v"]);
}

#[test]
fn listen_addresses_are_local() {
    assert_eq!(listen_address(1024), "127.0.0.1:1024");
    assert_eq!(listen_address(0), "127.0.0.1:0");
    assert_eq!(listen_address(65535), "127.0.0.1:65535");
}

#[test]
fn drawn_addresses_have_a_port_in_range() {
    for _ in 0..200 {
        let address = draw_listen_address();
        let port: u16 = address.strip_prefix("127.0.0.1:").unwrap().parse().unwrap();
        assert!((1024..9999).contains(&port));
        assert_eq!(address.len(), 14);
    }
}

#[test]
fn failed_bind_leads_to_another_try() {
    assert!(next_try(true).is_none());
    for _ in 0..50 {
        let address = next_try(false).unwrap();
        let port: u16 = address.strip_prefix("127.0.0.1:").unwrap().parse().unwrap();
        assert!((1024..9999).contains(&port));
        assert_eq!(address.len(), 14);
    }
}

#[test]
fn new_peer_is_sent_the_full_history() {
    let mut tools = ConsensusToolsStruct::new();
    let mut directory = AddressDirectory::new();
    assert!(directory.introduce().history.is_empty());
    let first = serialize_transaction(&transaction(0, b"a"));
    let second = serialize_transaction(&transaction(1, b"b"));
    directory.learn(&first);
    directory.learn(&tools.register(RegistrationRequest { addr: listen_address(4000) }));
    directory.learn(&second);
    let introduction = directory.introduce();
    assert_eq!(introduction.history, [first.clone(), second.clone()]);
    assert_eq!(
        introduction.addresses,
        serialize_connection_packet(&client(b"127.0.0.1:4000"))
    );
    directory.learn(&tools.register(RegistrationRequest { addr: listen_address(4001) }));
    let frames = directory.introduce().frames();
    assert_eq!(frames.len(), 4);
    assert_eq!(frames[0], serialize_connection_packet(&leader(LEADER_ADDRESS.as_bytes())));
    assert_eq!(frames[1].len(), 72);
    assert_eq!(&frames[2..], [first, second]);
}

#[test]
fn new_peer_catches_up_with_the_history() {
    let mut directory = AddressDirectory::new();
    directory.learn(b"127.0.0.1:1111");
    directory.learn(&serialize_transaction(&transaction(0, b"a")));
    directory.learn(&serialize_transaction(&transaction(1, b"b")));
    let mut ledger = Ledger::new();
    let mut dialed = 0;
    for (before, frame) in directory.introduce().frames().iter().enumerate() {
        match hear(before, frame) {
            Heard::Leads(leads) => dialed += leads.len(),
            Heard::Past(past) => {
                assert_eq!(past.seq_counter as usize, before - 2);
                ledger.apply(past);
            }
            Heard::Nothing => panic!("bad frame"),
        }
    }
    assert_eq!(dialed, 2);
    assert_eq!(ledger.value_of(b"key"), Some(b"b".to_vec()));
}

#[test]
fn frames_are_heard_by_their_place() {
    let packet = serialize_connection_packet(&client(b"x"));
    let past = serialize_transaction(&transaction(3, b"c"));
    assert!(matches!(hear(1, &packet), Heard::Leads(_)));
    assert!(matches!(hear(2, &packet), Heard::Nothing));
    match hear(2, &past) {
        Heard::Past(read) => assert_eq!(read, transaction(3, b"c")),
        other => panic!("no transaction: {:?}", other),
    }
    assert!(matches!(hear(0, &past), Heard::Leads(_)));
}
