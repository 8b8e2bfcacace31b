//! Counting the votes of a stage until there are enough of them.
use crate::request::{ActorRequest, ActorRequestView};
use crate::wire::same_bytes;
use vstd::prelude::*;
use vstd::utf8::{encode_utf8, is_ascii_chars_encode_utf8};

verus! {

/// How many votes make a quorum: 2f + 1, with one faulty node tolerated.
pub const QUORUM: i32 = 3;

/// What the peers are voting on.
#[derive(Debug, Clone, Copy, PartialEq, Eq, Structural)]
pub enum Stage {
    Prepare,
    Commit,
}

impl Stage {
    /// The name of the stage.
    pub open spec fn text(self) -> Seq<char> {
        match self {
            Stage::Prepare => "PREPARE"@,
            Stage::Commit => "COMMIT"@,
        }
    }

    /// What a vote for the stage carries: the bytes of its name.
    pub open spec fn tag(self) -> Seq<u8> {
        encode_utf8(self.text())
    }

    /// The name of the stage.
    pub fn name(self) -> (name: &'static str)
        ensures
            name@ == self.text(),
    {
        match self {
            Stage::Prepare => "PREPARE",
            Stage::Commit => "COMMIT",
        }
    }
}

/// `request` is a vote for `stage`.
pub open spec fn votes_for(request: ActorRequestView, stage: Stage) -> bool {
    request matches ActorRequestView::PeerVote { vote_type } && vote_type == stage.tag()
}

/// The counter once `request` has come in while the votes of `stage` are awaited.
pub open spec fn counted(counter: int, request: ActorRequestView, stage: Stage) -> int {
    counter + (if votes_for(request, stage) { 1int } else { 0int })
}

/// One request that came in while the votes of `stage` are awaited: counts it if
/// it is a vote for the stage, and says whether the wait is over. Requests that
/// are no votes are passed over.
pub fn wait_for_quorum(request: &ActorRequest, quorum_counter: &mut i32, stage: Stage) -> (reached: bool)
    requires
        votes_for(request@, stage) ==> *old(quorum_counter) < i32::MAX,
    ensures
        *final(quorum_counter) == counted(*old(quorum_counter) as int, request@, stage),
        reached == (request@ is PeerVote && *final(quorum_counter) >= QUORUM),
{
    match request {
        ActorRequest::PeerVote { vote_type } => {
            if same_bytes(vote_type.as_slice(), stage.name().as_bytes()) {
                *quorum_counter = *quorum_counter + 1;
            }
            *quorum_counter >= QUORUM
        },
        ActorRequest::ConsensusRequest { .. } => false,
    }
}

/// A request is a vote for one stage at most.
pub proof fn law_votes_count_for_one_stage(request: ActorRequestView)
    ensures
        !(votes_for(request, Stage::Prepare) && votes_for(request, Stage::Commit)),
{
    reveal_strlit("PREPARE");
    reveal_strlit("COMMIT");
    is_ascii_chars_encode_utf8("PREPARE"@);
    is_ascii_chars_encode_utf8("COMMIT"@);
}

/// How many requests of a queue are votes for `stage`.
pub open spec fn votes_in(queue: Seq<ActorRequestView>, stage: Stage) -> nat
    decreases queue.len(),
{
    if queue.len() == 0 {
        0
    } else {
        votes_in(queue.drop_first(), stage) + (if votes_for(queue.first(), stage) { 1nat } else { 0nat })
    }
}

/// The counter once the wait for `stage` is over, or has come to the end of the queue.
pub open spec fn counter_after(queue: Seq<ActorRequestView>, counter: int, stage: Stage) -> int
    decreases queue.len(),
{
    if queue.len() == 0 {
        counter
    } else {
        let counter = counted(counter, queue.first(), stage);
        if queue.first() is PeerVote && counter >= QUORUM {
            counter
        } else {
            counter_after(queue.drop_first(), counter, stage)
        }
    }
}

/// The votes of two queues, one behind the other, add up.
pub proof fn lemma_votes_add_up(a: Seq<ActorRequestView>, b: Seq<ActorRequestView>, stage: Stage)
    ensures
        votes_in(a + b, stage) == votes_in(a, stage) + votes_in(b, stage),
    decreases a.len(),
{
    if a.len() == 0 {
        assert(a + b =~= b);
    } else {
        assert((a + b).drop_first() =~= a.drop_first() + b);
        lemma_votes_add_up(a.drop_first(), b, stage);
    }
}

/// Queues that hold the same requests hold as many votes.
proof fn lemma_votes_of_same_requests(
    a: Seq<ActorRequestView>,
    b: Seq<ActorRequestView>,
    stage: Stage,
)
    requires
        a.to_multiset() == b.to_multiset(),
    ensures
        votes_in(a, stage) == votes_in(b, stage),
    decreases a.len(),
{
    broadcast use vstd::seq_lib::group_to_multiset_ensures;

    if a.len() == 0 {
        assert(b.len() == a.to_multiset().len());
    } else {
        let one = a.first();
        assert(a.contains(one));
        assert(b.to_multiset().count(one) > 0);
        assert(b.contains(one));
        let i = choose|i: int| 0 <= i < b.len() && b[i] == one;
        let (front, behind) = (b.take(i), b.skip(i + 1));
        assert(a.remove(0) =~= a.drop_first());
        assert(b.remove(i) =~= front + behind);
        assert(a.drop_first().to_multiset() =~= (front + behind).to_multiset());
        lemma_votes_of_same_requests(a.drop_first(), front + behind, stage);
        assert(b =~= front + (seq![one] + behind));
        assert((seq![one] + behind).drop_first() =~= behind);
        lemma_votes_add_up(front, behind, stage);
        lemma_votes_add_up(front, seq![one] + behind, stage);
    }
}

/// The wait counts the votes for its stage, up to a quorum.
pub proof fn law_votes_count_up_to_a_quorum(queue: Seq<ActorRequestView>, counter: int, stage: Stage)
    requires
        0 <= counter < QUORUM,
    ensures
        counter_after(queue, counter, stage) == (if counter + votes_in(queue, stage) < QUORUM {
            counter + votes_in(queue, stage)
        } else {
            QUORUM as int
        }),
        counter <= counter_after(queue, counter, stage) <= QUORUM,
    decreases queue.len(),
{
    if queue.len() > 0 {
        let next = counted(counter, queue.first(), stage);
        if next < QUORUM {
            law_votes_count_up_to_a_quorum(queue.drop_first(), next, stage);
        }
    }
}

/// The order in which requests come in does not matter to the count.
pub proof fn law_order_does_not_matter(
    a: Seq<ActorRequestView>,
    b: Seq<ActorRequestView>,
    counter: int,
    stage: Stage,
)
    requires
        0 <= counter < QUORUM,
        a.to_multiset() == b.to_multiset(),
    ensures
        counter_after(a, counter, stage) == counter_after(b, counter, stage),
{
    lemma_votes_of_same_requests(a, b, stage);
    law_votes_count_up_to_a_quorum(a, counter, stage);
    law_votes_count_up_to_a_quorum(b, counter, stage);
}

/// A request that is no vote for the awaited stage does not change the count,
/// wherever it comes in.
pub proof fn law_other_requests_do_not_count(
    before: Seq<ActorRequestView>,
    other: ActorRequestView,
    after: Seq<ActorRequestView>,
    counter: int,
    stage: Stage,
)
    requires
        0 <= counter < QUORUM,
        !votes_for(other, stage),
    ensures
        counter_after(before + seq![other] + after, counter, stage) == counter_after(
            before + after,
            counter,
            stage,
        ),
{
    lemma_votes_add_up(before, after, stage);
    lemma_votes_add_up(before + seq![other], after, stage);
    lemma_votes_add_up(before, seq![other], stage);
    assert(votes_in(seq![other], stage) == 0) by {
        reveal_with_fuel(votes_in, 2);
    }
    law_votes_count_up_to_a_quorum(before + seq![other] + after, counter, stage);
    law_votes_count_up_to_a_quorum(before + after, counter, stage);
}

/// A vote counts one exactly if it carries the name of the awaited stage, and ends the
/// wait once there are three. A request to commit a transaction neither counts nor ends
/// a wait, whatever it carries.
pub proof fn law_only_votes_count(
    request: &ActorRequest,
    quorum_counter: &mut i32,
    stage: Stage,
    reached: bool,
)
    requires
        call_ensures(wait_for_quorum, (request, quorum_counter, stage), reached),
    ensures
        match request {
            ActorRequest::PeerVote { vote_type } => {
                &&& vote_type@ == encode_utf8(
                    (match stage {
                        Stage::Prepare => "PREPARE"@,
                        Stage::Commit => "COMMIT"@,
                    }),
                ) ==> *final(quorum_counter) == *old(quorum_counter) + 1
                &&& vote_type@ != encode_utf8(
                    (match stage {
                        Stage::Prepare => "PREPARE"@,
                        Stage::Commit => "COMMIT"@,
                    }),
                ) ==> *final(quorum_counter) == *old(quorum_counter)
                &&& reached <==> *final(quorum_counter) >= 3
            },
            ActorRequest::ConsensusRequest { .. } => *final(quorum_counter) == *old(quorum_counter)
                && !reached,
        },
        *old(quorum_counter) < i32::MAX ==> call_requires(
            wait_for_quorum,
            (request, quorum_counter, stage),
        ),
{
}

/// The names of the stages.
pub proof fn law_stages_have_names(stage: Stage, name: &'static str)
    requires
        call_ensures(Stage::name, (stage,), name),
    ensures
        stage == Stage::Prepare ==> name@ == "PREPARE"@,
        stage == Stage::Commit ==> name@ == "COMMIT"@,
        call_requires(Stage::name, (stage,)),
{
}

proof fn lemma_votes_are_filtered(queue: Seq<ActorRequestView>, stage: Stage)
    ensures
        votes_in(queue, stage) == queue.filter(
            |request: ActorRequestView|
                request == (ActorRequestView::PeerVote { vote_type: stage.tag() }),
        ).len(),
    decreases queue.len(),
{
    let is_vote = |request: ActorRequestView|
        request == (ActorRequestView::PeerVote { vote_type: stage.tag() });
    reveal(Seq::filter);
    if queue.len() > 0 {
        lemma_votes_are_filtered(queue.drop_last(), stage);
        assert(queue =~= queue.drop_last() + seq![queue.last()]);
        lemma_votes_add_up(queue.drop_last(), seq![queue.last()], stage);
        assert(votes_in(seq![queue.last()], stage) == if is_vote(queue.last()) { 1nat } else { 0nat }) by {
            reveal_with_fuel(votes_in, 2);
        }
    }
}

/// However many requests come in, the wait for a stage counts the votes that carry its
/// name, up to three.
pub proof fn law_wait_counts_up_to_three(queue: Seq<ActorRequestView>, counter: int, stage: Stage)
    requires
        0 <= counter < 3,
    ensures
        ({
            let votes = queue.filter(
                |request: ActorRequestView|
                    request == (ActorRequestView::PeerVote {
                        vote_type: encode_utf8(
                            (match stage {
                                Stage::Prepare => "PREPARE"@,
                                Stage::Commit => "COMMIT"@,
                            }),
                        ),
                    }),
            ).len();
            &&& counter + votes < 3 ==> counter_after(queue, counter, stage) == counter + votes
            &&& counter + votes >= 3 ==> counter_after(queue, counter, stage) == 3
        }),
{
    law_votes_count_up_to_a_quorum(queue, counter, stage);
    lemma_votes_are_filtered(queue, stage);
    assert((|request: ActorRequestView|
        request == (ActorRequestView::PeerVote { vote_type: stage.tag() })) =~= (
    |request: ActorRequestView|
        request == (ActorRequestView::PeerVote {
            vote_type: encode_utf8(
                (match stage {
                    Stage::Prepare => "PREPARE"@,
                    Stage::Commit => "COMMIT"@,
                }),
            ),
        })));
}

} // verus!
