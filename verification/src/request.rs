//! What peers ask of the leader: to commit a transaction, or to count a vote.
use crate::framing::{frame_bytes, law_frames_arrive, messages_in};
use crate::wire::{field_bytes, le_bytes, lemma_prefix_rest, lemma_split_field, lemma_split_integer};
use crate::wire::{lemma_word_ranges, InvalidData};
use bytes::Bytes;
use vstd::prelude::*;

verus! {

/// A message from a peer to the leader.
#[derive(Debug, PartialEq, Eq)]
pub enum ActorRequest {
    ConsensusRequest { transaction: Vec<u8> },
    PeerVote { vote_type: Vec<u8> },
}

#[verifier::ext_equal]
pub enum ActorRequestView {
    ConsensusRequest { transaction: Seq<u8> },
    PeerVote { vote_type: Seq<u8> },
}

impl View for ActorRequest {
    type V = ActorRequestView;

    open spec fn view(&self) -> ActorRequestView {
        match self {
            ActorRequest::ConsensusRequest { transaction } => ActorRequestView::ConsensusRequest {
                transaction: transaction@,
            },
            ActorRequest::PeerVote { vote_type } => ActorRequestView::PeerVote {
                vote_type: vote_type@,
            },
        }
    }
}

/// A number and a byte string, as they are sent: the number in four bytes, the
/// byte string behind its length.
pub open spec fn tagged_bytes(tag: u32, body: Seq<u8>) -> Seq<u8> {
    le_bytes(tag as nat, 4) + field_bytes(body)
}

impl ActorRequestView {
    /// The number that tells the kinds of request apart.
    pub open spec fn tag(self) -> u32 {
        match self {
            ActorRequestView::ConsensusRequest { .. } => 0,
            ActorRequestView::PeerVote { .. } => 1,
        }
    }

    /// The bytes that the request carries.
    pub open spec fn body(self) -> Seq<u8> {
        match self {
            ActorRequestView::ConsensusRequest { transaction } => transaction,
            ActorRequestView::PeerVote { vote_type } => vote_type,
        }
    }

    /// The request as it is sent: which kind it is, then what it carries.
    pub open spec fn wire(self) -> Seq<u8> {
        tagged_bytes(self.tag(), self.body())
    }

    /// The request that `input` starts with, if it starts with one.
    pub open spec fn read(input: Seq<u8>) -> Option<ActorRequestView> {
        if exists|request: ActorRequestView| (#[trigger] request.wire()).is_prefix_of(input) {
            Some(choose|request: ActorRequestView| (#[trigger] request.wire()).is_prefix_of(input))
        } else {
            None
        }
    }
}

/// Bytes start with at most one number and byte string.
pub proof fn lemma_tagged_is_unique(tag_a: u32, a: Seq<u8>, tag_b: u32, b: Seq<u8>, input: Seq<u8>)
    requires
        input.len() <= u64::MAX,
        tagged_bytes(tag_a, a).is_prefix_of(input),
        tagged_bytes(tag_b, b).is_prefix_of(input),
    ensures
        tag_a == tag_b,
        a == b,
{
    lemma_word_ranges();
    lemma_prefix_rest(tagged_bytes(tag_a, a), input);
    lemma_prefix_rest(tagged_bytes(tag_b, b), input);
    let rest_a = input.skip(tagged_bytes(tag_a, a).len() as int);
    let rest_b = input.skip(tagged_bytes(tag_b, b).len() as int);
    let (tail_a, tail_b) = (field_bytes(a) + rest_a, field_bytes(b) + rest_b);
    assert(input =~= le_bytes(tag_a as nat, 4) + tail_a);
    assert(input =~= le_bytes(tag_b as nat, 4) + tail_b);
    lemma_split_integer(tag_a as nat, tag_b as nat, 4, tail_a, tail_b);
    lemma_split_field(a, b, rest_a, rest_b);
}

/// Bytes start with at most one request.
pub proof fn law_request_is_unique(a: ActorRequestView, b: ActorRequestView, input: Seq<u8>)
    requires
        input.len() <= u64::MAX,
        a.wire().is_prefix_of(input),
        b.wire().is_prefix_of(input),
    ensures
        a == b,
{
    lemma_tagged_is_unique(a.tag(), a.body(), b.tag(), b.body(), input);
}

/// Reading gives back the request that was sent, whatever was sent after it.
pub proof fn law_request_round_trip(request: ActorRequestView, rest: Seq<u8>)
    requires
        (request.wire() + rest).len() <= u64::MAX,
    ensures
        ActorRequestView::read(request.wire() + rest) == Some(request),
{
    let input = request.wire() + rest;
    assert(request.wire() =~= input.subrange(0, request.wire().len() as int));
    assert(request.wire().is_prefix_of(input));
    let found = choose|r: ActorRequestView| (#[trigger] r.wire()).is_prefix_of(input);
    law_request_is_unique(request, found, input);
}

/// A request that is cut short is not read as anything.
pub proof fn law_cut_request_is_refused(request: ActorRequestView, kept: int)
    requires
        request.wire().len() <= u64::MAX,
        0 <= kept < request.wire().len(),
    ensures
        ActorRequestView::read(request.wire().take(kept)) is None,
{
    let (whole, cut) = (request.wire(), request.wire().take(kept));
    assert(whole.is_prefix_of(whole)) by {
        assert(whole =~= whole.subrange(0, whole.len() as int));
    }
    assert forall|other: ActorRequestView| !(#[trigger] other.wire()).is_prefix_of(cut) by {
        if other.wire().is_prefix_of(cut) {
            let end = other.wire().len() as int;
            assert(whole.subrange(0, end) =~= cut.subrange(0, end));
            law_request_is_unique(request, other, whole);
        }
    }
}

/// A request of an unknown kind is not read as anything.
pub proof fn law_unknown_request_is_refused(tag: u32, body: Seq<u8>, rest: Seq<u8>)
    requires
        tag >= 2,
        (tagged_bytes(tag, body) + rest).len() <= u64::MAX,
    ensures
        ActorRequestView::read(tagged_bytes(tag, body) + rest) is None,
{
    let input = tagged_bytes(tag, body) + rest;
    assert(tagged_bytes(tag, body) =~= input.subrange(0, tagged_bytes(tag, body).len() as int));
    assert forall|r: ActorRequestView| !(#[trigger] r.wire()).is_prefix_of(input) by {
        if r.wire().is_prefix_of(input) {
            lemma_tagged_is_unique(tag, body, r.tag(), r.body(), input);
        }
    }
}

/// The requests that a peer's frames hold, up to the first that holds none.
pub open spec fn requests_in(frames: Seq<Seq<u8>>) -> Seq<ActorRequestView>
    decreases frames.len(),
{
    if frames.len() == 0 {
        Seq::empty()
    } else {
        match ActorRequestView::read(frames.first()) {
            Some(request) => seq![request] + requests_in(frames.drop_first()),
            None => Seq::empty(),
        }
    }
}

/// Requests that a peer sends, each in a frame, are the requests that are read, in
/// their order.
pub proof fn law_requests_arrive_in_order(requests: Seq<ActorRequestView>)
    requires
        forall|i: int| 0 <= i < requests.len() ==> (#[trigger] requests[i]).wire().len() <= u64::MAX,
    ensures
        requests_in(requests.map_values(|request: ActorRequestView| request.wire())) == requests,
    decreases requests.len(),
{
    let frames = requests.map_values(|request: ActorRequestView| request.wire());
    if requests.len() == 0 {
        assert(requests_in(frames) =~= requests);
    } else {
        let (first, others) = (requests.first(), requests.drop_first());
        assert(first.wire().len() <= u64::MAX);
        assert(first.wire() + Seq::empty() =~= first.wire());
        law_request_round_trip(first, Seq::empty());
        assert forall|i: int| 0 <= i < others.len() implies (#[trigger] others[i]).wire().len()
            <= u64::MAX by {
            assert(others[i] == requests[i + 1]);
        }
        law_requests_arrive_in_order(others);
        assert(frames.drop_first() =~= others.map_values(|request: ActorRequestView| request.wire()));
        assert(seq![first] + others =~= requests);
    }
}

/// Requests that a peer sends over a socket, one frame behind the other, are the
/// requests that are read from it, in their order.
pub proof fn law_sent_requests_are_read(requests: Seq<ActorRequestView>)
    requires
        forall|i: int| 0 <= i < requests.len() ==> (#[trigger] requests[i]).wire().len() <= u16::MAX,
    ensures
        requests_in(
            messages_in(
                requests.map_values(
                    |request: ActorRequestView| frame_bytes(request.wire(), 2),
                ).flatten(),
            ),
        ) == requests,
{
    let wires = requests.map_values(|request: ActorRequestView| request.wire());
    let frames = wires.map_values(|message: Seq<u8>| frame_bytes(message, 2));
    assert forall|i: int| 0 <= i < wires.len() implies (#[trigger] wires[i]).len() <= u16::MAX by {
        assert(requests[i].wire() == wires[i]);
    }
    assert(frames =~= requests.map_values(
        |request: ActorRequestView| frame_bytes(request.wire(), 2),
    ));
    law_frames_arrive(wires, Seq::empty());
    assert(frames.flatten() + Seq::empty() =~= frames.flatten());
    assert(wires + messages_in(Seq::empty()) =~= wires);
    law_requests_arrive_in_order(requests);
}

/// The first frame that holds no request ends the reading. The requests before it
/// stand, and nothing behind it is read.
pub proof fn law_unreadable_frame_ends_the_reading(frames: Seq<Seq<u8>>, bad: int)
    requires
        0 <= bad < frames.len(),
        ActorRequestView::read(frames[bad]) is None,
        forall|i: int| 0 <= i < bad ==> ActorRequestView::read(#[trigger] frames[i]) is Some,
    ensures
        requests_in(frames).len() == bad,
        forall|i: int|
            0 <= i < bad ==> ActorRequestView::read(#[trigger] frames[i]) == Some(requests_in(frames)[i]),
        requests_in(frames) == requests_in(frames.take(bad)),
    decreases frames.len(),
{
    if bad > 0 {
        let rest = frames.drop_first();
        assert(ActorRequestView::read(frames[0]) is Some);
        assert forall|i: int| 0 <= i < bad - 1 implies ActorRequestView::read(#[trigger] rest[i]) is Some by {
            assert(rest[i] == frames[i + 1]);
        }
        law_unreadable_frame_ends_the_reading(rest, bad - 1);
        assert(frames.take(bad).drop_first() =~= rest.take(bad - 1));
        assert forall|i: int| 0 <= i < bad implies ActorRequestView::read(#[trigger] frames[i]) == Some(
            requests_in(frames)[i],
        ) by {
            if i > 0 {
                assert(rest[i - 1] == frames[i]);
            }
        }
    }
}

/// Frames that all hold a request are all read.
pub proof fn law_readable_frames_are_all_read(frames: Seq<Seq<u8>>)
    requires
        forall|i: int| 0 <= i < frames.len() ==> ActorRequestView::read(#[trigger] frames[i]) is Some,
    ensures
        requests_in(frames).len() == frames.len(),
        forall|i: int|
            0 <= i < frames.len() ==> ActorRequestView::read(#[trigger] frames[i]) == Some(
                requests_in(frames)[i],
            ),
    decreases frames.len(),
{
    if frames.len() > 0 {
        let rest = frames.drop_first();
        assert(ActorRequestView::read(frames[0]) is Some);
        assert forall|i: int| 0 <= i < rest.len() implies ActorRequestView::read(#[trigger] rest[i]) is Some by {
            assert(rest[i] == frames[i + 1]);
        }
        law_readable_frames_are_all_read(rest);
        assert forall|i: int| 0 <= i < frames.len() implies ActorRequestView::read(#[trigger] frames[i])
            == Some(requests_in(frames)[i]) by {
            if i > 0 {
                assert(rest[i - 1] == frames[i]);
            }
        }
    }
}

/// `bincode::deserialize` of a `u32` and a `bytes::Bytes`.
///
/// Claims that it gives the number and the byte string that the input starts
/// with, ignores what follows them, and fails only where the input starts with
/// no such pair.
#[verifier::external_body]
fn bincode_read_tagged(input: &[u8]) -> (read: Result<(u32, Vec<u8>), bincode::Error>)
    ensures
        match read {
            Ok((tag, body)) => tagged_bytes(tag, body@).is_prefix_of(input@),
            Err(_) => forall|tag: u32, body: Seq<u8>|
                !(#[trigger] tagged_bytes(tag, body)).is_prefix_of(input@),
        },
{
    match bincode::deserialize::<(u32, Bytes)>(input) {
        Ok((tag, body)) => Ok((tag, body.to_vec())),
        Err(error) => Err(error),
    }
}

/// Reads the request at the start of `buffer`; what follows it is ignored.
pub fn deserialize_actor_request(buffer: &[u8]) -> (request: Result<ActorRequest, InvalidData>)
    ensures
        match request {
            Ok(request) => ActorRequestView::read(buffer@) == Some(request@),
            Err(InvalidData) => ActorRequestView::read(buffer@) is None,
        },
{
    let read = bincode_read_tagged(buffer);
    assert(buffer@.len() == buffer.len());
    let (tag, body) = match read {
        Ok(pair) => pair,
        Err(_) => return Err(InvalidData),
    };
    let request = if tag == 0 {
        ActorRequest::ConsensusRequest { transaction: body }
    } else if tag == 1 {
        ActorRequest::PeerVote { vote_type: body }
    } else {
        proof {
            assert forall|r: ActorRequestView| (#[trigger] r.wire()).is_prefix_of(buffer@) implies false by {
                lemma_tagged_is_unique(tag, body@, r.tag(), r.body(), buffer@);
            }
        }
        return Err(InvalidData);
    };
    proof {
        assert(request@.wire().is_prefix_of(buffer@));
        let found = choose|r: ActorRequestView| (#[trigger] r.wire()).is_prefix_of(buffer@);
        law_request_is_unique(request@, found, buffer@);
    }
    Ok(request)
}

/// Reads the requests of a peer's messages, in their order, up to the first message
/// that holds none. Says whether all could be read.
pub fn read_requests(messages: &[Vec<u8>]) -> (read: (Vec<ActorRequest>, bool))
    ensures
        read.0@.map_values(|request: ActorRequest| request@) == requests_in(
            messages@.map_values(|message: Vec<u8>| message@),
        ),
        read.1 == (read.0@.len() == messages@.len()),
{
    let mut requests: Vec<ActorRequest> = Vec::new();
    let ghost frames = messages@.map_values(|message: Vec<u8>| message@);
    let ghost mut seen = Seq::<ActorRequestView>::empty();
    assert(frames.skip(0) =~= frames);
    assert(seen + requests_in(frames) =~= requests_in(frames));
    for i in 0..messages.len()
        invariant
            frames == messages@.map_values(|message: Vec<u8>| message@),
            requests@.map_values(|request: ActorRequest| request@) == seen,
            seen.len() == i,
            seen + requests_in(frames.skip(i as int)) == requests_in(frames),
    {
        let ghost rest = frames.skip(i as int);
        assert(rest.first() == messages@[i as int]@);
        assert(rest.drop_first() =~= frames.skip(i + 1));
        match deserialize_actor_request(messages[i].as_slice()) {
            Ok(request) => {
                let ghost before = requests@;
                assert(seen.push(request@) + requests_in(frames.skip(i + 1)) =~= seen + requests_in(rest));
                proof {
                    seen = seen.push(request@);
                }
                requests.push(request);
                assert(requests@.map_values(|request: ActorRequest| request@) =~= before.map_values(
                    |request: ActorRequest| request@,
                ).push(request@));
            },
            Err(_) => {
                assert(seen =~= requests_in(frames));
                return (requests, false);
            },
        }
    }
    assert(seen =~= requests_in(frames));
    (requests, true)
}

/// A request to commit is sent behind the number 0 and a vote behind the number 1, each
/// number in four bytes, and then what it carries behind its length in eight bytes. What
/// is read is the request that the bytes start with, and only bytes that start with
/// neither are refused.
pub proof fn law_requests_are_read(
    buffer: &[u8],
    read: Result<ActorRequest, InvalidData>,
    body: Seq<u8>,
)
    requires
        call_ensures(deserialize_actor_request, (buffer,), read),
    ensures
        match read {
            Ok(ActorRequest::ConsensusRequest { transaction }) => (le_bytes(0, 4) + (le_bytes(
                transaction@.len(),
                8,
            ) + transaction@)).is_prefix_of(buffer@),
            Ok(ActorRequest::PeerVote { vote_type }) => (le_bytes(1, 4) + (le_bytes(vote_type@.len(), 8)
                + vote_type@)).is_prefix_of(buffer@),
            Err(_) => !(le_bytes(0, 4) + (le_bytes(body.len(), 8) + body)).is_prefix_of(buffer@) && !(
            le_bytes(1, 4) + (le_bytes(body.len(), 8) + body)).is_prefix_of(buffer@),
        },
        call_requires(deserialize_actor_request, (buffer,)),
{
    let commit = ActorRequestView::ConsensusRequest { transaction: body };
    let vote = ActorRequestView::PeerVote { vote_type: body };
    assert(commit.wire() == le_bytes(0, 4) + (le_bytes(body.len(), 8) + body));
    assert(vote.wire() == le_bytes(1, 4) + (le_bytes(body.len(), 8) + body));
    if let Ok(found) = read {
        assert(found@.wire().is_prefix_of(buffer@));
    }
}

/// The messages of a peer are read one by one: request `i` is that of message `i`, and
/// the reading stops short only of a message that holds none.
pub proof fn law_messages_are_read_one_by_one(
    messages: &[Vec<u8>],
    read: (Vec<ActorRequest>, bool),
)
    requires
        call_ensures(read_requests, (messages,), read),
    ensures
        read.0@.len() <= messages@.len(),
        forall|i: int|
            0 <= i < read.0@.len() ==> ActorRequestView::read(messages@[i]@) == Some(
                (#[trigger] read.0@[i])@,
            ),
        read.1 <==> read.0@.len() == messages@.len(),
        read.0@.len() < messages@.len() ==> ActorRequestView::read(messages@[read.0@.len() as int]@) is None,
        call_requires(read_requests, (messages,)),
{
    let frames = messages@.map_values(|message: Vec<u8>| message@);
    let views = read.0@.map_values(|request: ActorRequest| request@);
    lemma_reading_stops(frames);
    assert forall|i: int| 0 <= i < read.0@.len() implies ActorRequestView::read(messages@[i]@) == Some(
        (#[trigger] read.0@[i])@,
    ) by {
        assert(views[i] == read.0@[i]@);
        assert(frames[i] == messages@[i]@);
    }
}

proof fn lemma_reading_stops(frames: Seq<Seq<u8>>)
    ensures
        requests_in(frames).len() <= frames.len(),
        forall|i: int|
            0 <= i < requests_in(frames).len() ==> ActorRequestView::read(#[trigger] frames[i]) == Some(
                requests_in(frames)[i],
            ),
        requests_in(frames).len() < frames.len() ==> ActorRequestView::read(
            frames[requests_in(frames).len() as int],
        ) is None,
    decreases frames.len(),
{
    if frames.len() > 0 && ActorRequestView::read(frames.first()) is Some {
        let rest = frames.drop_first();
        lemma_reading_stops(rest);
        assert forall|i: int| 0 <= i < requests_in(frames).len() implies ActorRequestView::read(
            #[trigger] frames[i],
        ) == Some(requests_in(frames)[i]) by {
            if i > 0 {
                assert(rest[i - 1] == frames[i]);
            }
        }
        if requests_in(rest).len() < rest.len() {
            assert(rest[requests_in(rest).len() as int] == frames[requests_in(frames).len() as int]);
        }
    }
}

} // verus!
