//! One round of consensus: propose, gather the prepare votes, gather the commit
//! votes, commit.
use crate::framing::{frame, frame_bytes, law_frames_arrive, left_over, lemma_frame_layout};
use crate::framing::messages_in;
use crate::leader::ConsensusTools;
use crate::quorum::{counted, votes_for, wait_for_quorum, Stage, QUORUM};
use crate::request::{ActorRequest, ActorRequestView};
use crate::transaction::{law_transaction_round_trip, serialize_transaction, Transaction};
use crate::transaction::TransactionView;
use crate::validation::{is_valid, law_whole_content_is_hashed, sha256, verify_transaction};
use vstd::prelude::*;
use vstd::slice::slice_to_vec;
use vstd::utf8::encode_utf8;

verus! {

/// What can happen while votes are awaited.
#[derive(Debug)]
pub enum RoundEvent {
    /// A peer's request came in.
    Received(ActorRequest),
    /// No more requests can come in.
    Closed,
    /// The time for the votes is up.
    Elapsed,
}

#[verifier::ext_equal]
pub enum RoundEventView {
    Received(ActorRequestView),
    Closed,
    Elapsed,
}

impl View for RoundEvent {
    type V = RoundEventView;

    open spec fn view(&self) -> RoundEventView {
        match self {
            RoundEvent::Received(request) => RoundEventView::Received(request@),
            RoundEvent::Closed => RoundEventView::Closed,
            RoundEvent::Elapsed => RoundEventView::Elapsed,
        }
    }
}

/// A transaction on its way through consensus: the stage whose votes are
/// awaited, and how many there are.
#[derive(Debug)]
pub struct ConsensusRound {
    transaction: Transaction,
    stage: Stage,
    quorum_counter: i32,
}

#[verifier::ext_equal]
pub struct RoundView {
    pub transaction: TransactionView,
    pub stage: Stage,
    pub votes: int,
}

impl View for ConsensusRound {
    type V = RoundView;

    closed spec fn view(&self) -> RoundView {
        RoundView {
            transaction: self.transaction@,
            stage: self.stage,
            votes: self.quorum_counter as int,
        }
    }
}

/// What the leader does next in a round.
#[derive(Debug)]
pub enum RoundStep {
    /// Wait for the next event.
    Waiting(ConsensusRound),
    /// Forget the requests that are queued, send `message` to every peer, then
    /// wait for the next event.
    BroadcastCommit { round: ConsensusRound, message: Vec<u8> },
    /// Hand the transaction to the ledger, tell the bootnode of it, and advance.
    Commit(Transaction),
    /// Give the transaction up: the votes of a stage did not come, or not in time.
    Abandon(Stage),
}

#[verifier::ext_equal]
pub enum RoundStepView {
    Waiting(RoundView),
    BroadcastCommit { round: RoundView, message: Seq<u8> },
    Commit(TransactionView),
    Abandon(Stage),
}

impl View for RoundStep {
    type V = RoundStepView;

    open spec fn view(&self) -> RoundStepView {
        match self {
            RoundStep::Waiting(round) => RoundStepView::Waiting(round@),
            RoundStep::BroadcastCommit { round, message } => RoundStepView::BroadcastCommit {
                round: round@,
                message: message@,
            },
            RoundStep::Commit(transaction) => RoundStepView::Commit(transaction@),
            RoundStep::Abandon(stage) => RoundStepView::Abandon(*stage),
        }
    }
}

/// What goes to every peer when a transaction is proposed: its frame, or nothing
/// where it is too long for one.
pub open spec fn proposal(tx: TransactionView) -> Seq<u8> {
    if tx.wire().len() <= u16::MAX {
        frame_bytes(tx.wire(), 2)
    } else {
        Seq::empty()
    }
}

impl RoundView {
    /// The round of a proposed transaction. A transaction in order has the
    /// leader's own vote.
    pub open spec fn opened(tx: TransactionView, seq_counter: u32, view_number: u32) -> RoundView {
        RoundView {
            transaction: tx,
            stage: Stage::Prepare,
            votes: if is_valid(tx, seq_counter, view_number) { 1 } else { 0 },
        }
    }

    /// The stage has its votes: commit votes come next, or the commit itself.
    pub open spec fn stage_done(self) -> RoundStepView {
        match self.stage {
            Stage::Prepare => RoundStepView::BroadcastCommit {
                round: RoundView { stage: Stage::Commit, votes: 0, ..self },
                message: Stage::Commit.tag(),
            },
            Stage::Commit => RoundStepView::Commit(self.transaction),
        }
    }

    /// The votes once `request` has come in.
    pub open spec fn votes_with(self, request: ActorRequestView) -> int {
        counted(self.votes, request, self.stage)
    }

    /// What an event leads to. A stage is over with a quorum of its votes; a round
    /// that runs out of time, or of requests, is given up.
    pub open spec fn next(self, event: RoundEventView) -> RoundStepView {
        match event {
            RoundEventView::Elapsed => RoundStepView::Abandon(self.stage),
            RoundEventView::Closed => RoundStepView::Abandon(self.stage),
            RoundEventView::Received(request) => {
                if request is PeerVote && self.votes_with(request) >= QUORUM {
                    self.stage_done()
                } else {
                    RoundStepView::Waiting(RoundView { votes: self.votes_with(request), ..self })
                }
            },
        }
    }
}

impl ConsensusRound {
    #[verifier::type_invariant]
    spec fn awaits_votes(self) -> bool {
        0 <= self.quorum_counter < QUORUM
    }

    /// Proposes a transaction: gives the round, and what to send to every peer.
    pub fn propose(transaction: Transaction, tools: &ConsensusTools) -> (opened: (ConsensusRound, Vec<u8>))
        requires
            transaction@.wire().len() <= isize::MAX,
        ensures
            opened.0@ == RoundView::opened(transaction@, tools.sequence_counter, tools.view_number),
            opened.1@ == proposal(transaction@),
    {
        let payload = match frame(serialize_transaction(&transaction)) {
            Some(payload) => payload,
            None => Vec::new(),
        };
        let mut quorum_counter: i32 = 0;
        verify_transaction(&transaction, &mut quorum_counter, tools.sequence_counter, tools.view_number);
        (ConsensusRound { transaction, stage: Stage::Prepare, quorum_counter }, payload)
    }

    /// What an event leads to.
    pub fn step(self, event: RoundEvent) -> (step: RoundStep)
        ensures
            step@ == self@.next(event@),
    {
        proof {
            use_type_invariant(&self);
        }
        let ConsensusRound { transaction, stage, mut quorum_counter } = self;
        let done = match event {
            RoundEvent::Elapsed => return RoundStep::Abandon(stage),
            RoundEvent::Closed => return RoundStep::Abandon(stage),
            RoundEvent::Received(request) => wait_for_quorum(&request, &mut quorum_counter, stage),
        };
        if !done {
            return RoundStep::Waiting(ConsensusRound { transaction, stage, quorum_counter });
        }
        match stage {
            Stage::Prepare => RoundStep::BroadcastCommit {
                round: ConsensusRound { transaction, stage: Stage::Commit, quorum_counter: 0 },
                message: slice_to_vec(Stage::Commit.name().as_bytes()),
            },
            Stage::Commit => RoundStep::Commit(transaction),
        }
    }
}

/// Where a round stands after a number of events.
#[verifier::ext_equal]
pub enum RoundOutcome {
    Undecided(RoundView),
    Committed(TransactionView),
    Abandoned(Stage),
}

/// Where a round stands after `events`. Those after its end find no round.
pub open spec fn outcome(round: RoundView, events: Seq<RoundEventView>) -> RoundOutcome
    decreases events.len(),
{
    if events.len() == 0 {
        RoundOutcome::Undecided(round)
    } else {
        match round.next(events.first()) {
            RoundStepView::Waiting(round) => outcome(round, events.drop_first()),
            RoundStepView::BroadcastCommit { round, .. } => outcome(round, events.drop_first()),
            RoundStepView::Commit(tx) => RoundOutcome::Committed(tx),
            RoundStepView::Abandon(stage) => RoundOutcome::Abandoned(stage),
        }
    }
}

/// How many of `events` are votes for `stage`.
pub open spec fn tally(events: Seq<RoundEventView>, stage: Stage) -> nat
    decreases events.len(),
{
    if events.len() == 0 {
        0
    } else {
        tally(events.drop_first(), stage) + (if is_vote(events.first(), stage) { 1nat } else { 0nat })
    }
}

/// The event is a vote for `stage`.
pub open spec fn is_vote(event: RoundEventView, stage: Stage) -> bool {
    event matches RoundEventView::Received(request) && votes_for(request, stage)
}

/// A quorum of prepare votes, `votes` of them given before, is followed by a
/// quorum of commit votes.
pub open spec fn has_both_quorums(events: Seq<RoundEventView>, votes: int) -> bool {
    exists|i: int|
        0 <= i <= events.len() && votes + tally(#[trigger] events.take(i), Stage::Prepare) >= QUORUM
            && tally(events.skip(i), Stage::Commit) >= QUORUM
}

proof fn lemma_tally_of_suffix(events: Seq<RoundEventView>, i: int, stage: Stage)
    requires
        0 <= i <= events.len(),
    ensures
        tally(events.skip(i), stage) <= tally(events, stage),
    decreases events.len(),
{
    if i == 0 {
        assert(events.skip(0) =~= events);
    } else {
        lemma_tally_of_suffix(events.drop_first(), i - 1, stage);
        assert(events.drop_first().skip(i - 1) =~= events.skip(i));
    }
}

proof fn lemma_commit_stage(round: RoundView, events: Seq<RoundEventView>)
    requires
        round.stage == Stage::Commit,
        round.votes < QUORUM,
    ensures
        outcome(round, events) is Committed ==> round.votes + tally(events, Stage::Commit) >= QUORUM,
        !events.contains(RoundEventView::Closed) && !events.contains(RoundEventView::Elapsed)
            && round.votes + tally(events, Stage::Commit)
            >= QUORUM ==> outcome(round, events) is Committed,
    decreases events.len(),
{
    if events.len() > 0 {
        assert(events.contains(events.first()));
        let rest = events.drop_first();
        assert forall|e: RoundEventView| rest.contains(e) implies events.contains(e) by {
            let i = choose|i: int| 0 <= i < rest.len() && rest[i] == e;
            assert(events[i + 1] == e);
        }
        if let RoundStepView::Waiting(next) = round.next(events.first()) {
            lemma_commit_stage(next, rest);
        }
    }
}

proof fn lemma_prepare_stage(round: RoundView, events: Seq<RoundEventView>)
    requires
        round.stage == Stage::Prepare,
        round.votes < QUORUM,
    ensures
        outcome(round, events) is Committed ==> has_both_quorums(events, round.votes),
        !events.contains(RoundEventView::Closed) && !events.contains(RoundEventView::Elapsed)
            && has_both_quorums(events, round.votes)
            ==> outcome(round, events) is Committed,
    decreases events.len(),
{
    if events.len() == 0 {
        assert forall|i: int| 0 <= i <= events.len() implies tally(#[trigger] events.take(i), Stage::Prepare)
            == 0 by {
            assert(events.take(i) =~= events);
        }
    } else {
        assert(events.contains(events.first()));
        let (first, rest) = (events.first(), events.drop_first());
        assert forall|e: RoundEventView| rest.contains(e) implies events.contains(e) by {
            let i = choose|i: int| 0 <= i < rest.len() && rest[i] == e;
            assert(events[i + 1] == e);
        }
        let counted = if is_vote(first, Stage::Prepare) { 1int } else { 0int };
        assert forall|i: int| 1 <= i <= events.len() implies {
            &&& tally(#[trigger] events.take(i), Stage::Prepare) == counted + tally(
                rest.take(i - 1),
                Stage::Prepare,
            )
            &&& events.skip(i) == rest.skip(i - 1)
        } by {
            assert(events.take(i).drop_first() =~= rest.take(i - 1));
            assert(events.skip(i) =~= rest.skip(i - 1));
        }
        assert(tally(events.take(0), Stage::Prepare) == 0);
        match round.next(first) {
            RoundStepView::Waiting(next) => {
                lemma_prepare_stage(next, rest);
                if has_both_quorums(rest, next.votes) {
                    let i = choose|i: int|
                        0 <= i <= rest.len() && next.votes + tally(
                            #[trigger] rest.take(i),
                            Stage::Prepare,
                        ) >= QUORUM && tally(rest.skip(i), Stage::Commit) >= QUORUM;
                    assert(events.take(i + 1).len() == i + 1);
                    assert(has_both_quorums(events, round.votes));
                }
                if has_both_quorums(events, round.votes) {
                    let i = choose|i: int|
                        0 <= i <= events.len() && round.votes + tally(
                            #[trigger] events.take(i),
                            Stage::Prepare,
                        ) >= QUORUM && tally(events.skip(i), Stage::Commit) >= QUORUM;
                    assert(i >= 1);
                    assert(rest.take(i - 1).len() == i - 1);
                    assert(has_both_quorums(rest, next.votes));
                }
            },
            RoundStepView::BroadcastCommit { round: next, .. } => {
                lemma_commit_stage(next, rest);
                assert(rest.take(0).len() == 0 && rest.skip(0) =~= rest);
                assert(tally(events.take(1), Stage::Prepare) == counted);
                if has_both_quorums(events, round.votes) {
                    let i = choose|i: int|
                        0 <= i <= events.len() && round.votes + tally(
                            #[trigger] events.take(i),
                            Stage::Prepare,
                        ) >= QUORUM && tally(events.skip(i), Stage::Commit) >= QUORUM;
                    assert(i >= 1);
                    lemma_tally_of_suffix(rest, i - 1, Stage::Commit);
                }
            },
            _ => {},
        }
    }
}

/// A transaction is committed only with both quorums: enough prepare votes,
/// then enough commit votes. The leader's own vote counts towards the first.
pub proof fn law_commit_needs_quorums(
    tx: TransactionView,
    seq_counter: u32,
    view_number: u32,
    events: Seq<RoundEventView>,
)
    requires
        outcome(RoundView::opened(tx, seq_counter, view_number), events) is Committed,
    ensures
        has_both_quorums(events, RoundView::opened(tx, seq_counter, view_number).votes),
{
    lemma_prepare_stage(RoundView::opened(tx, seq_counter, view_number), events);
}

/// A transaction whose round takes both quorums, in turn and in time, is committed,
/// whatever other requests the round takes meanwhile.
pub proof fn law_quorums_commit(
    tx: TransactionView,
    seq_counter: u32,
    view_number: u32,
    events: Seq<RoundEventView>,
)
    requires
        !events.contains(RoundEventView::Closed),
        !events.contains(RoundEventView::Elapsed),
        has_both_quorums(events, RoundView::opened(tx, seq_counter, view_number).votes),
    ensures
        outcome(RoundView::opened(tx, seq_counter, view_number), events) is Committed,
{
    lemma_prepare_stage(RoundView::opened(tx, seq_counter, view_number), events);
}

/// What a round commits is the transaction that was proposed.
pub proof fn law_commits_the_proposal(round: RoundView, events: Seq<RoundEventView>)
    ensures
        outcome(round, events) matches RoundOutcome::Committed(tx) ==> tx == round.transaction,
        outcome(round, events) matches RoundOutcome::Undecided(next) ==> next.transaction
            == round.transaction,
    decreases events.len(),
{
    if events.len() > 0 {
        match round.next(events.first()) {
            RoundStepView::Waiting(next) => law_commits_the_proposal(next, events.drop_first()),
            RoundStepView::BroadcastCommit { round: next, .. } => law_commits_the_proposal(
                next,
                events.drop_first(),
            ),
            _ => {},
        }
    }
}

/// A round that is undecided when its time is up, or when no more requests can
/// come in, is abandoned at the stage that it has reached.
pub proof fn law_rounds_end(round: RoundView, events: Seq<RoundEventView>, end: RoundEventView)
    requires
        end is Elapsed || end is Closed,
    ensures
        outcome(round, events.push(end)) == (match outcome(round, events) {
            RoundOutcome::Undecided(next) => RoundOutcome::Abandoned(next.stage),
            decided => decided,
        }),
    decreases events.len(),
{
    let longer = events.push(end);
    if events.len() > 0 {
        assert(longer.drop_first() =~= events.drop_first().push(end));
        match round.next(events.first()) {
            RoundStepView::Waiting(next) => law_rounds_end(next, events.drop_first(), end),
            RoundStepView::BroadcastCommit { round: next, .. } => law_rounds_end(
                next,
                events.drop_first(),
                end,
            ),
            _ => {},
        }
    }
}

/// What is sent when a transaction is proposed is one message, the transaction, and
/// whoever reads it finds the transaction. This holds of every transaction that fits in
/// a frame.
pub proof fn law_proposal_is_the_transaction(tx: TransactionView)
    requires
        tx.well_formed(),
        tx.wire().len() <= 65535,
    ensures
        messages_in(proposal(tx)) == seq![tx.wire()],
        left_over(proposal(tx)).len() == 0,
        TransactionView::read(messages_in(proposal(tx))[0]) == Some(tx),
{
    let (messages, nothing) = (seq![tx.wire()], Seq::<u8>::empty());
    let frames = messages.map_values(|message: Seq<u8>| frame_bytes(message, 2));
    assert(frames =~= seq![frame_bytes(tx.wire(), 2)]);
    assert(frames.flatten() + nothing =~= proposal(tx)) by {
        assert(frames.drop_first() =~= Seq::empty());
        assert(frames.drop_first().flatten() =~= nothing);
    }
    law_frames_arrive(messages, nothing);
    assert(messages + messages_in(nothing) =~= messages);
    law_transaction_round_trip(tx, nothing);
    assert(tx.wire() + nothing =~= tx.wire());
}

/// A round opens on the proposed transaction, with prepare votes awaited. It opens with
/// one vote exactly if the transaction's hash is that of the client's key in eight bytes,
/// its key and its value, and both of its counters are the leader's, and else with none.
/// What goes to every peer is the length of the transaction in two bytes, the low one
/// first, and the transaction.
pub proof fn law_rounds_open_with_the_leaders_vote(
    transaction: Transaction,
    tools: &ConsensusTools,
    opened: (ConsensusRound, Vec<u8>),
    content: Seq<u8>,
)
    requires
        call_ensures(ConsensusRound::propose, (transaction, tools), opened),
        content.len() == 8 + transaction.key@.len() + transaction.value@.len(),
        0x100_0000_0000_0000 * content[0] + 0x1_0000_0000_0000 * content[1] + 0x100_0000_0000 * content[2]
            + 0x1_0000_0000 * content[3] + 0x100_0000 * content[4] + 0x1_0000 * content[5] + 0x100
            * content[6] + content[7] == transaction.client_key,
        content.subrange(8, 8int + transaction.key@.len()) == transaction.key@,
        content.skip(8int + transaction.key@.len()) == transaction.value@,
    ensures
        opened.0@.transaction == transaction@,
        opened.0@.stage == Stage::Prepare,
        transaction.tx_hash@ == sha256(content) && transaction.seq_counter == tools.sequence_counter
            && transaction.view_number == tools.view_number ==> opened.0@.votes == 1,
        transaction.tx_hash@ != sha256(content) || transaction.seq_counter != tools.sequence_counter
            || transaction.view_number != tools.view_number ==> opened.0@.votes == 0,
        transaction@.wire().len() <= 65535 ==> {
            &&& opened.1@ == seq![
                (transaction@.wire().len() % 256) as u8,
                (transaction@.wire().len() / 256) as u8,
            ] + transaction@.wire()
            &&& messages_in(opened.1@) == seq![transaction@.wire()]
            &&& TransactionView::read(messages_in(opened.1@)[0]) == Some(transaction@)
        },
        transaction@.wire().len() > 65535 ==> opened.1@.len() == 0,
        transaction@.wire().len() <= isize::MAX ==> call_requires(
            ConsensusRound::propose,
            (transaction, tools),
        ),
{
    law_whole_content_is_hashed(transaction@, content);
    if transaction@.wire().len() <= 65535 {
        law_proposal_is_the_transaction(transaction@);
        lemma_frame_layout(transaction@.wire());
    }
}

/// What a round does with an event. A vote with the name of the awaited stage is one vote
/// more: the third prepare vote leads to the commit stage, with no votes yet and the word
/// `COMMIT` for every peer, and the third commit vote to the commit of the transaction. Any
/// other request leaves the round as it is. With its time, or with all requests, the round
/// ends at its stage.
pub proof fn law_rounds_step(round: ConsensusRound, event: RoundEvent, step: RoundStep)
    requires
        call_ensures(ConsensusRound::step, (round, event), step),
        0 <= round@.votes < 3,
    ensures
        match event {
            RoundEvent::Received(ActorRequest::PeerVote { vote_type }) => {
                if vote_type@ != encode_utf8(
                    (match round@.stage {
                        Stage::Prepare => "PREPARE"@,
                        Stage::Commit => "COMMIT"@,
                    }),
                ) {
                    step matches RoundStep::Waiting(next) && next@ == round@
                } else if round@.votes < 2 {
                    step matches RoundStep::Waiting(next) && next@.votes == round@.votes + 1
                        && next@.stage == round@.stage && next@.transaction == round@.transaction
                } else if round@.stage == Stage::Prepare {
                    step matches RoundStep::BroadcastCommit { round: next, message } && next@.votes == 0
                        && next@.stage == Stage::Commit && next@.transaction == round@.transaction
                        && message@ == encode_utf8("COMMIT"@)
                } else {
                    step matches RoundStep::Commit(tx) && tx@ == round@.transaction
                }
            },
            RoundEvent::Received(ActorRequest::ConsensusRequest { .. }) => {
                step matches RoundStep::Waiting(next) && next@ == round@
            },
            RoundEvent::Closed => step matches RoundStep::Abandon(stage) && stage == round@.stage,
            RoundEvent::Elapsed => step matches RoundStep::Abandon(stage) && stage == round@.stage,
        },
        call_requires(ConsensusRound::step, (round, event)),
{
}

proof fn lemma_tally_adds_up(a: Seq<RoundEventView>, b: Seq<RoundEventView>, stage: Stage)
    ensures
        tally(a + b, stage) == tally(a, stage) + tally(b, stage),
    decreases a.len(),
{
    if a.len() == 0 {
        assert(a + b =~= b);
    } else {
        assert((a + b).drop_first() =~= a.drop_first() + b);
        lemma_tally_adds_up(a.drop_first(), b, stage);
    }
}

proof fn lemma_tally_is_filtered(events: Seq<RoundEventView>, stage: Stage)
    ensures
        tally(events, stage) == events.filter(
            |event: RoundEventView|
                event == RoundEventView::Received(
                    ActorRequestView::PeerVote { vote_type: stage.tag() },
                ),
        ).len(),
    decreases events.len(),
{
    let is_one = |event: RoundEventView|
        event == RoundEventView::Received(ActorRequestView::PeerVote { vote_type: stage.tag() });
    reveal(Seq::filter);
    if events.len() > 0 {
        lemma_tally_is_filtered(events.drop_last(), stage);
        assert(events =~= events.drop_last() + seq![events.last()]);
        lemma_tally_adds_up(events.drop_last(), seq![events.last()], stage);
        assert(tally(seq![events.last()], stage) == if is_one(events.last()) { 1nat } else { 0nat }) by {
            reveal_with_fuel(tally, 2);
        }
    }
}

/// A transaction is committed only with votes of its peers. Where its hash is that of the
/// client's key, its key and its value, and its counters are the leader's, two prepare votes
/// are taken and after them three commit votes. Where any of this is not so, three prepare
/// votes are taken and after them three commit votes.
pub proof fn law_commit_takes_the_peers_votes(
    transaction: Transaction,
    tools: &ConsensusTools,
    opened: (ConsensusRound, Vec<u8>),
    content: Seq<u8>,
    events: Seq<RoundEventView>,
)
    requires
        call_ensures(ConsensusRound::propose, (transaction, tools), opened),
        content.len() == 8 + transaction.key@.len() + transaction.value@.len(),
        0x100_0000_0000_0000 * content[0] + 0x1_0000_0000_0000 * content[1] + 0x100_0000_0000 * content[2]
            + 0x1_0000_0000 * content[3] + 0x100_0000 * content[4] + 0x1_0000 * content[5] + 0x100
            * content[6] + content[7] == transaction.client_key,
        content.subrange(8, 8int + transaction.key@.len()) == transaction.key@,
        content.skip(8int + transaction.key@.len()) == transaction.value@,
        outcome(opened.0@, events) is Committed,
    ensures
        exists|i: int|
            0 <= i <= events.len() && (#[trigger] events.take(i)).filter(
                |event: RoundEventView|
                    event == RoundEventView::Received(
                        ActorRequestView::PeerVote { vote_type: encode_utf8("PREPARE"@) },
                    ),
            ).len() >= (if transaction.tx_hash@ == sha256(content) && transaction.seq_counter
                == tools.sequence_counter && transaction.view_number == tools.view_number {
                2int
            } else {
                3int
            }) && events.skip(i).filter(
                |event: RoundEventView|
                    event == RoundEventView::Received(
                        ActorRequestView::PeerVote { vote_type: encode_utf8("COMMIT"@) },
                    ),
            ).len() >= 3,
        outcome(opened.0@, events) == RoundOutcome::Committed(transaction@),
{
    law_rounds_open_with_the_leaders_vote(transaction, tools, opened, content);
    law_commits_the_proposal(opened.0@, events);
    lemma_prepare_stage(opened.0@, events);
    let i = choose|i: int|
        0 <= i <= events.len() && opened.0@.votes + tally(#[trigger] events.take(i), Stage::Prepare)
            >= QUORUM && tally(events.skip(i), Stage::Commit) >= QUORUM;
    lemma_tally_is_filtered(events.take(i), Stage::Prepare);
    lemma_tally_is_filtered(events.skip(i), Stage::Commit);
}

/// A transaction whose hash is not that of the client's key, its key and its value is
/// committed only if three peers' prepare votes and three commit votes were taken.
pub proof fn law_forged_transactions_need_three_peers(
    transaction: Transaction,
    tools: &ConsensusTools,
    opened: (ConsensusRound, Vec<u8>),
    content: Seq<u8>,
    events: Seq<RoundEventView>,
)
    requires
        call_ensures(ConsensusRound::propose, (transaction, tools), opened),
        content.len() == 8 + transaction.key@.len() + transaction.value@.len(),
        0x100_0000_0000_0000 * content[0] + 0x1_0000_0000_0000 * content[1] + 0x100_0000_0000 * content[2]
            + 0x1_0000_0000 * content[3] + 0x100_0000 * content[4] + 0x1_0000 * content[5] + 0x100
            * content[6] + content[7] == transaction.client_key,
        content.subrange(8, 8int + transaction.key@.len()) == transaction.key@,
        content.skip(8int + transaction.key@.len()) == transaction.value@,
        outcome(opened.0@, events) is Committed,
    ensures
        transaction.tx_hash@ != sha256(content) ==> events.filter(
            |event: RoundEventView|
                    event == RoundEventView::Received(
                        ActorRequestView::PeerVote { vote_type: encode_utf8("PREPARE"@) },
                    ),
        ).len() >= 3,
        events.filter(
            |event: RoundEventView|
                    event == RoundEventView::Received(
                        ActorRequestView::PeerVote { vote_type: encode_utf8("COMMIT"@) },
                    ),
        ).len() >= 3,
{
    law_commit_takes_the_peers_votes(transaction, tools, opened, content, events);
    law_rounds_open_with_the_leaders_vote(transaction, tools, opened, content);
    lemma_prepare_stage(opened.0@, events);
    let i = choose|i: int|
        0 <= i <= events.len() && opened.0@.votes + tally(#[trigger] events.take(i), Stage::Prepare)
            >= QUORUM && tally(events.skip(i), Stage::Commit) >= QUORUM;
    assert(events =~= events.take(i) + events.skip(i));
    lemma_tally_adds_up(events.take(i), events.skip(i), Stage::Prepare);
    lemma_tally_adds_up(events.take(i), events.skip(i), Stage::Commit);
    lemma_tally_is_filtered(events, Stage::Prepare);
    lemma_tally_is_filtered(events, Stage::Commit);
}

/// A transaction is committed where its round takes enough votes, in turn, and neither its
/// time nor the requests run out: three prepare votes, or two where the leader has its own,
/// and then three commit votes.
pub proof fn law_peers_votes_commit(
    transaction: Transaction,
    tools: &ConsensusTools,
    opened: (ConsensusRound, Vec<u8>),
    content: Seq<u8>,
    events: Seq<RoundEventView>,
    i: int,
)
    requires
        call_ensures(ConsensusRound::propose, (transaction, tools), opened),
        content.len() == 8 + transaction.key@.len() + transaction.value@.len(),
        0x100_0000_0000_0000 * content[0] + 0x1_0000_0000_0000 * content[1] + 0x100_0000_0000 * content[2]
            + 0x1_0000_0000 * content[3] + 0x100_0000 * content[4] + 0x1_0000 * content[5] + 0x100
            * content[6] + content[7] == transaction.client_key,
        content.subrange(8, 8int + transaction.key@.len()) == transaction.key@,
        content.skip(8int + transaction.key@.len()) == transaction.value@,
        !events.contains(RoundEventView::Closed),
        !events.contains(RoundEventView::Elapsed),
        0 <= i <= events.len(),
        events.skip(i).filter(
            |event: RoundEventView|
                    event == RoundEventView::Received(
                        ActorRequestView::PeerVote { vote_type: encode_utf8("COMMIT"@) },
                    ),
        ).len() >= 3,
    ensures
        events.take(i).filter(
            |event: RoundEventView|
                    event == RoundEventView::Received(
                        ActorRequestView::PeerVote { vote_type: encode_utf8("PREPARE"@) },
                    ),
        ).len() >= (if transaction.tx_hash@ == sha256(content) && transaction.seq_counter
            == tools.sequence_counter && transaction.view_number == tools.view_number {
            2int
        } else {
            3int
        }) ==> outcome(opened.0@, events) == RoundOutcome::Committed(transaction@),
{
    law_rounds_open_with_the_leaders_vote(transaction, tools, opened, content);
    law_commits_the_proposal(opened.0@, events);
    lemma_tally_is_filtered(events.take(i), Stage::Prepare);
    lemma_tally_is_filtered(events.skip(i), Stage::Commit);
    lemma_prepare_stage(opened.0@, events);
}

} // verus!
