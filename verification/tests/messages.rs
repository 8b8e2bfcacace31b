use bytes::BytesMut;
use fortress_protocol::framing::{frame, FrameReader, LENGTH_FIELD};
use fortress_protocol::packet::{
    deserialize_connection_packet, serialize_connection_packet, ConnectionPacket,
};
use fortress_protocol::request::{deserialize_actor_request, read_requests, ActorRequest};
use fortress_protocol::transaction::{
    deserialize_client_transaction, deserialize_transaction, serialize_transaction,
    ClientTransaction, Transaction,
};
use fortress_protocol::wire::{same_bytes, InvalidData};
use tokio_util::codec::{Decoder, LengthDelimitedCodec};

fn field(contents: &[u8]) -> Vec<u8> {
    let mut bytes = (contents.len() as u64).to_le_bytes().to_vec();
    bytes.extend_from_slice(contents);
    bytes
}

fn packet() -> ConnectionPacket {
    ConnectionPacket { node_type: b"client".to_vec(), address: b"127.0.0.1:4242".to_vec() }
}

fn transaction() -> Transaction {
    Transaction {
        consensus_stage: String::from("propos\u{e9}"),
        tx_hash: [7; 32],
        seq_counter: 0x0102_0304,
        view_number: 5,
        client_key: 0x1122_3344_5566_7788,
        source: b"peer".to_vec(),
        key: b"color".to_vec(),
        value: b"".to_vec(),
    }
}

#[test]
fn packet_is_two_length_prefixed_fields() {
    let expected = [
        6, 0, 0, 0, 0, 0, 0, 0, b'c', b'l', b'i', b'e', b'n', b't', 14, 0, 0, 0, 0, 0, 0, 0, b'1',
        b'2', b'7', b'.', b'0', b'.', b'0', b'.', b'1', b':', b'4', b'2', b'4', b'2',
    ];
    assert_eq!(serialize_connection_packet(&packet()), expected);
}

#[test]
fn packet_is_read_back() {
    let bytes = serialize_connection_packet(&packet());
    assert_eq!(deserialize_connection_packet(&bytes), Ok(packet()));
}

#[test]
fn bytes_after_a_packet_are_ignored() {
    let mut bytes = serialize_connection_packet(&packet());
    bytes.extend_from_slice(&[0xff; 9]);
    assert_eq!(deserialize_connection_packet(&bytes), Ok(packet()));
}

#[test]
fn truncated_packets_are_refused() {
    let bytes = serialize_connection_packet(&packet());
    for len in 0..bytes.len() {
        assert_eq!(deserialize_connection_packet(&bytes[..len]), Err(InvalidData));
    }
}

#[test]
fn packet_with_a_length_beyond_its_end_is_refused() {
    assert_eq!(deserialize_connection_packet(&[0xff; 40]), Err(InvalidData));
}

#[test]
fn transaction_is_its_fields_in_order() {
    let mut expected = field("propos\u{e9}".as_bytes());
    expected.extend_from_slice(&[7; 32]);
    expected.extend_from_slice(&[4, 3, 2, 1]);
    expected.extend_from_slice(&[5, 0, 0, 0]);
    expected.extend_from_slice(&[0x88, 0x77, 0x66, 0x55, 0x44, 0x33, 0x22, 0x11]);
    expected.extend(field(b"peer"));
    expected.extend(field(b"color"));
    expected.extend(field(b""));
    assert_eq!(serialize_transaction(&transaction()), expected);
}

#[test]
fn transaction_is_read_back() {
    let mut bytes = serialize_transaction(&transaction());
    assert_eq!(deserialize_transaction(&bytes), Ok(transaction()));
    bytes.push(1);
    assert_eq!(deserialize_transaction(&bytes), Ok(transaction()));
}

#[test]
fn truncated_transactions_are_refused() {
    let bytes = serialize_transaction(&transaction());
    for len in 0..bytes.len() {
        assert_eq!(deserialize_transaction(&bytes[..len]), Err(InvalidData));
    }
}

#[test]
fn transaction_stage_must_be_text() {
    let mut bytes = serialize_transaction(&transaction());
    bytes[8] = 0xff;
    assert_eq!(deserialize_transaction(&bytes), Err(InvalidData));
}

#[test]
fn client_transaction_is_read() {
    let mut bytes = field(b"k");
    bytes.extend(field(b"v"));
    assert_eq!(deserialize_client_transaction(&bytes), Err(InvalidData));
    bytes.extend(field(b"who"));
    let expected = ClientTransaction {
        key: b"k".to_vec(),
        value: b"v".to_vec(),
        client_key: b"who".to_vec(),
    };
    assert_eq!(deserialize_client_transaction(&bytes), Ok(expected));
}

#[test]
fn truncated_client_transactions_are_refused() {
    let mut bytes = field(b"k");
    bytes.extend(field(b"v"));
    bytes.extend(field(b"who"));
    for len in 0..bytes.len() {
        assert_eq!(deserialize_client_transaction(&bytes[..len]), Err(InvalidData));
    }
    bytes.extend_from_slice(b"more");
    assert!(deserialize_client_transaction(&bytes).is_ok());
}

#[test]
fn ordinary_transactions_fit() {
    assert!(transaction().fits());
}

#[test]
fn requests_are_told_apart_by_their_number() {
    let mut bytes = vec![0, 0, 0, 0];
    bytes.extend(field(b"tx"));
    assert_eq!(
        deserialize_actor_request(&bytes),
        Ok(ActorRequest::ConsensusRequest { transaction: b"tx".to_vec() })
    );
    bytes[0] = 1;
    assert_eq!(
        deserialize_actor_request(&bytes),
        Ok(ActorRequest::PeerVote { vote_type: b"tx".to_vec() })
    );
}

#[test]
fn unknown_and_truncated_requests_are_refused() {
    let mut bytes = vec![2, 0, 0, 0];
    bytes.extend(field(b"tx"));
    assert_eq!(deserialize_actor_request(&bytes), Err(InvalidData));
    bytes[0] = 0;
    bytes[3] = 1;
    assert_eq!(deserialize_actor_request(&bytes), Err(InvalidData));
    bytes[3] = 0;
    assert!(deserialize_actor_request(&bytes).is_ok());
    bytes.pop();
    assert_eq!(deserialize_actor_request(&bytes), Err(InvalidData));
    assert_eq!(deserialize_actor_request(b""), Err(InvalidData));
}

#[test]
fn frame_starts_with_a_two_byte_length() {
    assert_eq!(frame(b"COMMIT".to_vec()), Some(b"\x06\x00COMMIT".to_vec()));
    assert_eq!(frame(Vec::new()), Some(vec![0, 0]));
    let framed = frame(vec![9; 0x0203]).unwrap();
    assert_eq!(&framed[..3], &[3, 2, 9]);
    assert_eq!(framed.len(), 0x0205);
}

#[test]
fn frame_holds_at_most_what_its_length_can_tell() {
    assert_eq!(frame(vec![1; 65535]).map(|f| f.len()), Some(65537));
    assert_eq!(frame(vec![1; 65536]), None);
}

/// The messages that arrive with the bytes of `stream`.
fn arriving(stream: &[u8]) -> Vec<Vec<u8>> {
    let mut codec = LengthDelimitedCodec::builder()
        .length_field_length(LENGTH_FIELD)
        .little_endian()
        .new_codec();
    let mut buffer = BytesMut::from(stream);
    let mut messages = Vec::new();
    while let Some(message) = codec.decode(&mut buffer).unwrap() {
        messages.push(message.to_vec());
    }
    messages
}

#[test]
fn frames_in_a_row_arrive_as_the_same_messages() {
    let messages = vec![b"PREPARE".to_vec(), Vec::new(), vec![3; 600], b"COMMIT".to_vec()];
    let mut stream = Vec::new();
    for message in &messages {
        stream.extend(frame(message.clone()).unwrap());
    }
    assert_eq!(arriving(&stream), messages);
    assert_eq!(FrameReader::new().receive(&stream), messages);
    stream.pop();
    assert_eq!(arriving(&stream), &messages[..3]);
    assert_eq!(FrameReader::new().receive(&stream), &messages[..3]);
}

#[test]
fn reader_waits_for_the_rest_of_a_frame() {
    let mut reader = FrameReader::new();
    assert!(reader.receive(b"").is_empty());
    assert!(reader.receive(b"\x06").is_empty());
    assert!(reader.receive(b"\x00COM").is_empty());
    assert_eq!(reader.receive(b"MIT\x00\x00\x01"), [b"COMMIT".to_vec(), Vec::new()]);
    assert_eq!(reader.receive(b"\x00x"), [b"x".to_vec()]);
}

#[test]
fn pieces_of_a_stream_do_not_matter() {
    let messages = vec![b"PREPARE".to_vec(), Vec::new(), vec![3; 65535], b"COMMIT".to_vec()];
    let mut stream = Vec::new();
    for message in &messages {
        stream.extend(frame(message.clone()).unwrap());
    }
    for size in [7, 1000, 8192, 65536] {
        let mut reader = FrameReader::new();
        let mut received = Vec::new();
        for piece in stream.chunks(size) {
            received.extend(reader.receive(piece));
        }
        assert_eq!(received, messages);
    }
}

fn request_bytes(tag: u8, body: &[u8]) -> Vec<u8> {
    let mut bytes = vec![tag, 0, 0, 0];
    bytes.extend(field(body));
    bytes
}

/// The requests of a stream, up to the first frame that holds none, and whether all
/// could be read.
fn requests(stream: &[u8]) -> (Vec<ActorRequest>, bool) {
    read_requests(&FrameReader::new().receive(stream))
}

#[test]
fn requests_are_read_in_the_order_in_which_they_were_sent() {
    let mut stream = frame(request_bytes(1, b"PREPARE")).unwrap();
    stream.extend(frame(request_bytes(0, b"tx")).unwrap());
    stream.extend(frame(request_bytes(1, b"COMMIT")).unwrap());
    let (read, all) = requests(&stream);
    assert!(all);
    assert_eq!(
        read,
        [
            ActorRequest::PeerVote { vote_type: b"PREPARE".to_vec() },
            ActorRequest::ConsensusRequest { transaction: b"tx".to_vec() },
            ActorRequest::PeerVote { vote_type: b"COMMIT".to_vec() },
        ]
    );
}

#[test]
fn first_unreadable_frame_ends_the_reading() {
    let mut stream = frame(request_bytes(1, b"PREPARE")).unwrap();
    stream.extend(frame(request_bytes(2, b"tx")).unwrap());
    stream.extend(frame(request_bytes(1, b"COMMIT")).unwrap());
    let (read, all) = requests(&stream);
    assert!(!all);
    assert_eq!(read, [ActorRequest::PeerVote { vote_type: b"PREPARE".to_vec() }]);
    let (read, all) = requests(b"");
    assert!(all);
    assert!(read.is_empty());
}

#[test]
fn byte_strings_are_compared_whole() {
    assert!(same_bytes(b"", b""));
    assert!(same_bytes(b"ab", b"ab"));
    assert!(!same_bytes(b"ab", b"ac"));
    assert!(!same_bytes(b"ab", b"abc"));
}
