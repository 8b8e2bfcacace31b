use fortress_protocol::leader::{
    consensus_actor, ActorStep, ConsensusToolsStruct, RegistrationRequest,
};
use fortress_protocol::quorum::{wait_for_quorum, Stage};
use fortress_protocol::request::ActorRequest;
use fortress_protocol::round::{ConsensusRound, RoundEvent, RoundStep};
use fortress_protocol::transaction::{serialize_transaction, Transaction};
use fortress_protocol::validation::{verify_digest, verify_transaction};
use fortress_protocol::wire::InvalidData;

/// SHA-256 of the eight bytes 01 to 08, then `key`, then `value`.
const DIGEST: [u8; 32] = [
    0xa2, 0xd6, 0xb5, 0xee, 0x0a, 0xe1, 0xec, 0x16, 0x99, 0xb0, 0x28, 0x82,
    0x64, 0x0d, 0x69, 0xc9, 0x9a, 0x7a, 0xef, 0xd6, 0xa0, 0x40, 0x11, 0xd3,
    0x41, 0xb6, 0xe5, 0x22, 0x17, 0x1c, 0x96, 0xbe,
];

fn transaction(seq_counter: u32, view_number: u32) -> Transaction {
    Transaction {
        consensus_stage: String::from("PREPARE"),
        tx_hash: DIGEST,
        seq_counter,
        view_number,
        client_key: 0x0102_0304_0506_0708,
        source: b"127.0.0.1:4000".to_vec(),
        key: b"key".to_vec(),
        value: b"value".to_vec(),
    }
}

fn tools(sequence_counter: u32, view_number: u32) -> ConsensusToolsStruct {
    ConsensusToolsStruct { sequence_counter, view_number, registry: Vec::new() }
}

fn vote(stage: &[u8]) -> ActorRequest {
    ActorRequest::PeerVote { vote_type: stage.to_vec() }
}

fn request() -> ActorRequest {
    ActorRequest::ConsensusRequest { transaction: b"PREPARE".to_vec() }
}

fn waiting(step: RoundStep) -> ConsensusRound {
    match step {
        RoundStep::Waiting(round) => round,
        other => panic!("not waiting: {:?}", other),
    }
}

fn broadcast(step: RoundStep) -> ConsensusRound {
    match step {
        RoundStep::BroadcastCommit { round, message } => {
            assert_eq!(message, b"COMMIT");
            round
        }
        other => panic!("no commit stage: {:?}", other),
    }
}

fn voted(round: ConsensusRound, stage: &[u8]) -> RoundStep {
    round.step(RoundEvent::Received(vote(stage)))
}

#[test]
fn valid_transaction_gets_the_leaders_vote() {
    let mut votes = 0;
    verify_transaction(&transaction(4, 2), &mut votes, 4, 2);
    assert_eq!(votes, 1);
    verify_transaction(&transaction(4, 2), &mut votes, 4, 2);
    assert_eq!(votes, 2);
}

#[test]
fn transaction_out_of_order_gets_no_vote() {
    let mut votes = 0;
    verify_transaction(&transaction(4, 2), &mut votes, 5, 2);
    verify_transaction(&transaction(4, 2), &mut votes, 4, 1);
    assert_eq!(votes, 0);
}

#[test]
fn transaction_with_another_hash_gets_no_vote() {
    let mut votes = 0;
    let mut tampered = transaction(0, 0);
    tampered.value = b"valuf".to_vec();
    verify_transaction(&tampered, &mut votes, 0, 0);
    let mut tampered = transaction(0, 0);
    tampered.client_key += 1;
    verify_transaction(&tampered, &mut votes, 0, 0);
    let mut tampered = transaction(0, 0);
    tampered.tx_hash[31] ^= 1;
    verify_transaction(&tampered, &mut votes, 0, 0);
    assert_eq!(votes, 0);
}

#[test]
fn digest_decides_with_the_counters() {
    let mut votes = 7;
    verify_digest(&transaction(1, 1), &DIGEST, &mut votes, 1, 1);
    assert_eq!(votes, 8);
    verify_digest(&transaction(1, 1), &[0; 32], &mut votes, 1, 1);
    assert_eq!(votes, 8);
}

#[test]
fn votes_of_the_stage_are_counted() {
    let mut votes = 0;
    assert!(!wait_for_quorum(&vote(b"COMMIT"), &mut votes, Stage::Commit));
    assert!(!wait_for_quorum(&vote(b"PREPARE"), &mut votes, Stage::Commit));
    assert!(!wait_for_quorum(&vote(b"COMMI"), &mut votes, Stage::Commit));
    assert!(!wait_for_quorum(&request(), &mut votes, Stage::Commit));
    assert_eq!(votes, 1);
    assert!(!wait_for_quorum(&vote(b"COMMIT"), &mut votes, Stage::Commit));
    assert!(wait_for_quorum(&vote(b"COMMIT"), &mut votes, Stage::Commit));
    assert_eq!(votes, 3);
}

#[test]
fn any_vote_ends_a_wait_that_has_its_quorum() {
    let mut votes = 3;
    assert!(!wait_for_quorum(&request(), &mut votes, Stage::Prepare));
    assert!(wait_for_quorum(&vote(b"other"), &mut votes, Stage::Prepare));
    assert_eq!(votes, 3);
}

#[test]
fn stages_are_named_in_votes() {
    assert_eq!(Stage::Prepare.name(), "PREPARE");
    assert_eq!(Stage::Commit.name(), "COMMIT");
}

#[test]
fn proposal_is_the_framed_transaction() {
    let bytes = serialize_transaction(&transaction(0, 0));
    let (_, payload) = ConsensusRound::propose(transaction(0, 0), &tools(0, 0));
    assert_eq!(&payload[..2], &(bytes.len() as u16).to_le_bytes());
    assert_eq!(&payload[2..], &bytes[..]);
}

#[test]
fn proposal_too_long_for_a_frame_is_empty() {
    let mut long = transaction(0, 0);
    long.value = vec![0; 70_000];
    let (_, payload) = ConsensusRound::propose(long, &tools(0, 0));
    assert!(payload.is_empty());
}

#[test]
fn valid_transaction_is_committed_with_two_prepare_and_three_commit_votes() {
    let (round, _) = ConsensusRound::propose(transaction(3, 1), &tools(3, 1));
    let round = waiting(voted(round, b"PREPARE"));
    let round = waiting(voted(round, b"COMMIT"));
    let round = waiting(round.step(RoundEvent::Received(request())));
    let round = broadcast(voted(round, b"PREPARE"));
    let round = waiting(voted(round, b"COMMIT"));
    let round = waiting(voted(round, b"PREPARE"));
    let round = waiting(voted(round, b"COMMIT"));
    match voted(round, b"COMMIT") {
        RoundStep::Commit(committed) => assert_eq!(committed, transaction(3, 1)),
        other => panic!("not committed: {:?}", other),
    }
}

#[test]
fn transaction_without_the_leaders_vote_needs_three_prepare_votes() {
    let (round, _) = ConsensusRound::propose(transaction(3, 1), &tools(4, 1));
    let round = waiting(voted(round, b"PREPARE"));
    let round = waiting(voted(round, b"PREPARE"));
    broadcast(voted(round, b"PREPARE"));
}

#[test]
fn round_is_abandoned_when_the_time_is_up() {
    let (round, _) = ConsensusRound::propose(transaction(0, 0), &tools(0, 0));
    let round = waiting(voted(round, b"PREPARE"));
    assert!(matches!(round.step(RoundEvent::Elapsed), RoundStep::Abandon(Stage::Prepare)));
    let (round, _) = ConsensusRound::propose(transaction(0, 0), &tools(0, 0));
    let round = waiting(voted(round, b"PREPARE"));
    let round = broadcast(voted(round, b"PREPARE"));
    assert!(matches!(round.step(RoundEvent::Elapsed), RoundStep::Abandon(Stage::Commit)));
}

#[test]
fn end_of_all_requests_ends_the_wait() {
    let (round, _) = ConsensusRound::propose(transaction(0, 0), &tools(0, 0));
    assert!(matches!(round.step(RoundEvent::Closed), RoundStep::Abandon(Stage::Prepare)));
    let (round, _) = ConsensusRound::propose(transaction(0, 0), &tools(0, 0));
    let round = waiting(voted(round, b"PREPARE"));
    let round = broadcast(voted(round, b"PREPARE"));
    let round = waiting(voted(round, b"COMMIT"));
    let round = waiting(voted(round, b"COMMIT"));
    assert!(matches!(round.step(RoundEvent::Closed), RoundStep::Abandon(Stage::Commit)));
}

/// Takes the votes in turn, with `queue` holding those that are not taken yet, and
/// forgets what is queued when the stage changes.
fn run_queue(mut round: ConsensusRound, mut queue: Vec<ActorRequest>) -> Option<ConsensusRound> {
    while !queue.is_empty() {
        match round.step(RoundEvent::Received(queue.remove(0))) {
            RoundStep::Waiting(next) => round = next,
            RoundStep::BroadcastCommit { round: next, .. } => {
                queue.clear();
                round = next;
            }
            _ => return None,
        }
    }
    Some(round)
}

#[test]
fn votes_queued_before_the_commit_stage_do_not_count() {
    let (round, _) = ConsensusRound::propose(transaction(0, 0), &tools(0, 0));
    let early = vec![
        vote(b"PREPARE"),
        vote(b"PREPARE"),
        vote(b"COMMIT"),
        vote(b"COMMIT"),
        vote(b"COMMIT"),
    ];
    let round = run_queue(round, early).expect("undecided");
    let late = vec![vote(b"COMMIT"), vote(b"COMMIT")];
    let round = run_queue(round, late).expect("undecided");
    match voted(round, b"COMMIT") {
        RoundStep::Commit(committed) => assert_eq!(committed, transaction(0, 0)),
        other => panic!("not committed: {:?}", other),
    }
}

fn count(queue: &[ActorRequest], mut votes: i32, stage: Stage) -> i32 {
    for request in queue {
        if wait_for_quorum(request, &mut votes, stage) {
            break;
        }
    }
    votes
}

#[test]
fn order_of_the_votes_does_not_matter() {
    let a = [vote(b"COMMIT"), request(), vote(b"PREPARE"), vote(b"COMMIT")];
    let b = [vote(b"PREPARE"), vote(b"COMMIT"), vote(b"COMMIT"), request()];
    let without = [vote(b"COMMIT"), vote(b"COMMIT")];
    for (start, end) in [(0, 2), (1, 3), (2, 3)] {
        assert_eq!(count(&a, start, Stage::Commit), end);
        assert_eq!(count(&b, start, Stage::Commit), end);
        assert_eq!(count(&without, start, Stage::Commit), end);
    }
}

#[test]
fn votes_beyond_the_quorum_are_not_counted() {
    let queue: Vec<ActorRequest> = (0..5).map(|_| vote(b"PREPARE")).collect();
    assert_eq!(count(&queue, 0, Stage::Prepare), 3);
    assert_eq!(count(&queue, 2, Stage::Prepare), 3);
}

#[test]
fn view_changes_after_five_commits() {
    let mut tools = ConsensusToolsStruct::new();
    for commits in 0..40u32 {
        assert_eq!(tools.sequence_counter, commits % 5);
        assert_eq!(tools.view_number, commits / 5);
        tools.advance();
    }
}

#[test]
fn counter_beyond_the_view_starts_the_next_view() {
    let mut tools = tools(12, 3);
    tools.advance();
    assert_eq!((tools.sequence_counter, tools.view_number), (0, 4));
    for _ in 0..4 {
        tools.advance();
    }
    assert_eq!((tools.sequence_counter, tools.view_number), (4, 4));
    tools.advance();
    assert_eq!((tools.sequence_counter, tools.view_number), (0, 5));
}

#[test]
fn committed_transaction_is_not_valid_again() {
    let mut tools = tools(4, 0);
    let mut votes = 0;
    verify_transaction(&transaction(4, 0), &mut votes, tools.sequence_counter, tools.view_number);
    for _ in 0..10 {
        tools.advance();
        verify_transaction(&transaction(4, 0), &mut votes, tools.sequence_counter, tools.view_number);
    }
    assert_eq!(votes, 1);
}

#[test]
fn registration_gives_the_packed_registry() {
    let mut tools = ConsensusToolsStruct::new();
    let first = RegistrationRequest { addr: String::from("127.0.0.1:1025") };
    assert_eq!(tools.register(first), b"127.0.0.1:1025");
    let second = RegistrationRequest { addr: String::from("[::1]:40000") };
    assert_eq!(tools.register(second), b"127.0.0.1:1025[::1]:40000");
    assert_eq!(tools.registry, ["127.0.0.1:1025", "[::1]:40000"]);
    assert_eq!((tools.sequence_counter, tools.view_number), (0, 0));
}

#[test]
fn request_between_rounds_is_proposed() {
    let bytes = serialize_transaction(&transaction(1, 0));
    match consensus_actor(ActorRequest::ConsensusRequest { transaction: bytes }) {
        Ok(ActorStep::Propose(proposed)) => assert_eq!(proposed, transaction(1, 0)),
        other => panic!("not proposed: {:?}", other),
    }
}

#[test]
fn vote_between_rounds_is_rejected() {
    assert!(matches!(consensus_actor(vote(b"PREPARE")), Ok(ActorStep::Reject)));
}

#[test]
fn unreadable_proposal_is_an_error() {
    assert!(matches!(consensus_actor(request()), Err(InvalidData)));
}
