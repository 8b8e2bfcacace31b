//! A round of consensus with the queue that its requests come in by.
use crate::quorum::{lemma_votes_add_up, votes_in, Stage, QUORUM};
use crate::request::ActorRequestView;
use crate::round::{law_commits_the_proposal, outcome, RoundEventView, RoundOutcome, RoundStepView};
use crate::round::RoundView;
use crate::transaction::TransactionView;
use vstd::prelude::*;

verus! {

/// What can happen to a round and to the queue that its requests come in by.
#[verifier::ext_equal]
pub enum QueueEvent {
    /// A peer's request joins the queue.
    Arrived(ActorRequestView),
    /// The leader takes the request at the front, if there is one.
    Taken,
    /// The leader finds that no more requests can come in.
    Closed,
    /// The time for the votes is up.
    Elapsed,
}

/// Where a round stands after `events`, with `queue` holding the requests that have
/// not been taken. With the change of stage, what is queued is forgotten.
pub open spec fn queued_outcome(
    round: RoundView,
    queue: Seq<ActorRequestView>,
    events: Seq<QueueEvent>,
) -> RoundOutcome
    decreases events.len(),
{
    if events.len() == 0 {
        RoundOutcome::Undecided(round)
    } else {
        let rest = events.drop_first();
        match events.first() {
            QueueEvent::Arrived(request) => queued_outcome(round, queue.push(request), rest),
            QueueEvent::Taken if queue.len() > 0 => match round.next(
                RoundEventView::Received(queue.first()),
            ) {
                RoundStepView::Waiting(round) => queued_outcome(round, queue.drop_first(), rest),
                RoundStepView::BroadcastCommit { round, .. } => queued_outcome(
                    round,
                    Seq::empty(),
                    rest,
                ),
                RoundStepView::Commit(tx) => RoundOutcome::Committed(tx),
                RoundStepView::Abandon(stage) => RoundOutcome::Abandoned(stage),
            },
            QueueEvent::Taken => queued_outcome(round, queue, rest),
            QueueEvent::Closed => outcome(round, seq![RoundEventView::Closed]),
            QueueEvent::Elapsed => outcome(round, seq![RoundEventView::Elapsed]),
        }
    }
}

/// The requests that come in with `events`.
pub open spec fn arrivals(events: Seq<QueueEvent>) -> Seq<ActorRequestView>
    decreases events.len(),
{
    if events.len() == 0 {
        Seq::empty()
    } else {
        match events.first() {
            QueueEvent::Arrived(request) => seq![request] + arrivals(events.drop_first()),
            _ => arrivals(events.drop_first()),
        }
    }
}

/// With the event before `i`, and not sooner, the round comes to await commit votes.
pub open spec fn stage_changes_at(
    round: RoundView,
    queue: Seq<ActorRequestView>,
    events: Seq<QueueEvent>,
    i: int,
) -> bool {
    &&& 1 <= i <= events.len()
    &&& queued_outcome(round, queue, events.take(i - 1)) matches RoundOutcome::Undecided(before)
        && before.stage == Stage::Prepare
    &&& queued_outcome(round, queue, events.take(i)) matches RoundOutcome::Undecided(after)
        && after.stage == Stage::Commit
}

/// The prepare votes that are in when the stage changes are a quorum, and so are the
/// commit votes that come in after that.
pub open spec fn has_both_quorums_in_turn(
    round: RoundView,
    queue: Seq<ActorRequestView>,
    events: Seq<QueueEvent>,
) -> bool {
    exists|i: int|
        {
            &&& #[trigger] stage_changes_at(round, queue, events, i)
            &&& round.votes + votes_in(queue, Stage::Prepare) + votes_in(
                arrivals(events.take(i)),
                Stage::Prepare,
            ) >= QUORUM
            &&& votes_in(arrivals(events.skip(i)), Stage::Commit) >= QUORUM
        }
}

proof fn lemma_queued_commit_stage(
    round: RoundView,
    queue: Seq<ActorRequestView>,
    events: Seq<QueueEvent>,
)
    requires
        round.stage == Stage::Commit,
        round.votes < QUORUM,
        queued_outcome(round, queue, events) is Committed,
    ensures
        round.votes + votes_in(queue, Stage::Commit) + votes_in(arrivals(events), Stage::Commit) >= QUORUM,
    decreases events.len(),
{
    reveal_with_fuel(outcome, 2);
    let rest = events.drop_first();
    match events.first() {
        QueueEvent::Arrived(request) => {
            lemma_queued_commit_stage(round, queue.push(request), rest);
            assert(queue.push(request) =~= queue + seq![request]);
            lemma_votes_add_up(queue, seq![request], Stage::Commit);
            lemma_votes_add_up(seq![request], arrivals(rest), Stage::Commit);
        },
        QueueEvent::Taken => {
            if queue.len() == 0 {
                lemma_queued_commit_stage(round, queue, rest);
            } else if let RoundStepView::Waiting(next) = round.next(
                RoundEventView::Received(queue.first()),
            ) {
                lemma_queued_commit_stage(next, queue.drop_first(), rest);
            }
        },
        _ => {},
    }
}

/// The index at which the stage changes, where the round is committed in the end.
proof fn lemma_queued_prepare_stage(
    round: RoundView,
    queue: Seq<ActorRequestView>,
    events: Seq<QueueEvent>,
) -> (i: int)
    requires
        round.stage == Stage::Prepare,
        round.votes < QUORUM,
        queued_outcome(round, queue, events) is Committed,
    ensures
        stage_changes_at(round, queue, events, i),
        round.votes + votes_in(queue, Stage::Prepare) + votes_in(
            arrivals(events.take(i)),
            Stage::Prepare,
        ) >= QUORUM,
        votes_in(arrivals(events.skip(i)), Stage::Commit) >= QUORUM,
    decreases events.len(),
{
    reveal_with_fuel(outcome, 2);
    let rest = events.drop_first();
    assert forall|i: int| 0 <= i <= rest.len() implies {
        &&& #[trigger] events.take(i + 1).drop_first() == rest.take(i)
        &&& events.skip(i + 1) == rest.skip(i)
    } by {
        assert(events.take(i + 1).drop_first() =~= rest.take(i));
        assert(events.skip(i + 1) =~= rest.skip(i));
    }
    match events.first() {
        QueueEvent::Arrived(request) => {
            let i = lemma_queued_prepare_stage(round, queue.push(request), rest);
            assert(events.take(i + 1).drop_first() == rest.take(i));
            assert(events.take(i - 1 + 1).drop_first() == rest.take(i - 1));
            assert(queue.push(request) =~= queue + seq![request]);
            lemma_votes_add_up(queue, seq![request], Stage::Prepare);
            lemma_votes_add_up(seq![request], arrivals(rest.take(i)), Stage::Prepare);
            i + 1
        },
        QueueEvent::Taken if queue.len() == 0 => {
            let i = lemma_queued_prepare_stage(round, queue, rest);
            assert(events.take(i + 1).drop_first() == rest.take(i));
            assert(events.take(i - 1 + 1).drop_first() == rest.take(i - 1));
            i + 1
        },
        _ => {
            match round.next(RoundEventView::Received(queue.first())) {
                RoundStepView::Waiting(next) => {
                    let i = lemma_queued_prepare_stage(next, queue.drop_first(), rest);
                    assert(events.take(i + 1).drop_first() == rest.take(i));
                    assert(events.take(i - 1 + 1).drop_first() == rest.take(i - 1));
                    i + 1
                },
                RoundStepView::BroadcastCommit { round: next, .. } => {
                    lemma_queued_commit_stage(next, Seq::empty(), rest);
                    assert(events.take(1).drop_first() =~= rest.take(0));
                    assert(rest.skip(0) =~= rest);
                    assert(queued_outcome(next, Seq::empty(), rest.take(0))
                        == RoundOutcome::Undecided(next));
                    1
                },
                _ => 0,
            }
        },
    }
}

/// What is queued when the stage changes makes no difference to the round any more.
pub proof fn law_queued_requests_are_forgotten(
    round: RoundView,
    vote: ActorRequestView,
    queue: Seq<ActorRequestView>,
    other: Seq<ActorRequestView>,
    events: Seq<QueueEvent>,
)
    requires
        round.next(RoundEventView::Received(vote)) is BroadcastCommit,
    ensures
        queued_outcome(round, seq![vote] + queue, seq![QueueEvent::Taken] + events) == queued_outcome(
            round,
            seq![vote] + other,
            seq![QueueEvent::Taken] + events,
        ),
{
}

/// A commit vote counts only if it comes in after the stage has changed: where a
/// transaction is committed, a quorum of prepare votes was in by the change, and a
/// quorum of commit votes came in after it. What was queued by then is not among them.
pub proof fn law_early_commit_votes_never_count(
    tx: TransactionView,
    seq_counter: u32,
    view_number: u32,
    queue: Seq<ActorRequestView>,
    events: Seq<QueueEvent>,
)
    requires
        queued_outcome(RoundView::opened(tx, seq_counter, view_number), queue, events) is Committed,
    ensures
        has_both_quorums_in_turn(RoundView::opened(tx, seq_counter, view_number), queue, events),
{
    let i = lemma_queued_prepare_stage(
        RoundView::opened(tx, seq_counter, view_number),
        queue,
        events,
    );
}

/// What the round is handed with `events`: the requests that the leader takes, and
/// the end of the round where it comes before a decision.
pub open spec fn handed_on(
    round: RoundView,
    queue: Seq<ActorRequestView>,
    events: Seq<QueueEvent>,
) -> Seq<RoundEventView>
    decreases events.len(),
{
    if events.len() == 0 {
        Seq::empty()
    } else {
        let rest = events.drop_first();
        match events.first() {
            QueueEvent::Arrived(request) => handed_on(round, queue.push(request), rest),
            QueueEvent::Taken if queue.len() > 0 => {
                let one = RoundEventView::Received(queue.first());
                match round.next(one) {
                    RoundStepView::Waiting(next) => seq![one] + handed_on(next, queue.drop_first(), rest),
                    RoundStepView::BroadcastCommit { round: next, .. } => seq![one] + handed_on(
                        next,
                        Seq::empty(),
                        rest,
                    ),
                    _ => seq![one],
                }
            },
            QueueEvent::Taken => handed_on(round, queue, rest),
            QueueEvent::Closed => seq![RoundEventView::Closed],
            QueueEvent::Elapsed => seq![RoundEventView::Elapsed],
        }
    }
}

/// The requests among `events`.
pub open spec fn requests_of(events: Seq<RoundEventView>) -> Seq<ActorRequestView>
    decreases events.len(),
{
    if events.len() == 0 {
        Seq::empty()
    } else {
        match events.first() {
            RoundEventView::Received(request) => seq![request] + requests_of(events.drop_first()),
            _ => requests_of(events.drop_first()),
        }
    }
}

/// `picked` is taken from `offered`, in order and each at most once: request `i` of
/// `picked` stands in `offered` at `places[i]`.
pub open spec fn picked_at(
    picked: Seq<ActorRequestView>,
    offered: Seq<ActorRequestView>,
    places: Seq<int>,
) -> bool {
    &&& places.len() == picked.len()
    &&& forall|i: int|
        0 <= i < picked.len() ==> 0 <= #[trigger] places[i] < offered.len() && picked[i]
            == offered[places[i]]
    &&& forall|i: int, j: int| 0 <= i < j < picked.len() ==> #[trigger] places[i] < #[trigger] places[j]
}

/// One more in front: what was picked behind the first `skipped` offers, and the first.
proof fn lemma_pick_one_more(
    picked: Seq<ActorRequestView>,
    offered: Seq<ActorRequestView>,
    places: Seq<int>,
    skipped: int,
) -> (all: Seq<int>)
    requires
        1 <= skipped <= offered.len(),
        picked_at(picked, offered.skip(skipped), places),
    ensures
        picked_at(seq![offered.first()] + picked, offered, all),
{
    let all = seq![0int] + places.map_values(|place: int| place + skipped);
    let longer = seq![offered.first()] + picked;
    assert forall|i: int| 0 <= i < longer.len() implies 0 <= #[trigger] all[i] < offered.len() && longer[i]
        == offered[all[i]] by {
        if i > 0 {
            assert(all[i] == places[i - 1] + skipped);
        }
    }
    assert forall|i: int, j: int| 0 <= i < j < longer.len() implies #[trigger] all[i] < #[trigger] all[j] by {
        assert(all[j] == places[j - 1] + skipped);
        if i > 0 {
            assert(all[i] == places[i - 1] + skipped);
        }
    }
    all
}

proof fn lemma_queue_hands_on(
    round: RoundView,
    queue: Seq<ActorRequestView>,
    events: Seq<QueueEvent>,
) -> (places: Seq<int>)
    ensures
        queued_outcome(round, queue, events) == outcome(round, handed_on(round, queue, events)),
        picked_at(requests_of(handed_on(round, queue, events)), queue + arrivals(events), places),
    decreases events.len(),
{
    if events.len() == 0 {
        Seq::empty()
    } else {
        let rest = events.drop_first();
        let offered = queue + arrivals(events);
        match events.first() {
            QueueEvent::Arrived(request) => {
                assert(queue.push(request) + arrivals(rest) =~= offered);
                lemma_queue_hands_on(round, queue.push(request), rest)
            },
            QueueEvent::Taken if queue.len() == 0 => lemma_queue_hands_on(round, queue, rest),
            QueueEvent::Taken => {
                let one = RoundEventView::Received(queue.first());
                match round.next(one) {
                    RoundStepView::Waiting(next) => {
                        let left = queue.drop_first();
                        let places = lemma_queue_hands_on(next, left, rest);
                        let after = handed_on(next, left, rest);
                        assert((seq![one] + after).drop_first() =~= after);
                        assert(left + arrivals(rest) =~= offered.skip(1));
                        lemma_pick_one_more(requests_of(after), offered, places, 1)
                    },
                    RoundStepView::BroadcastCommit { round: next, .. } => {
                        let left = Seq::<ActorRequestView>::empty();
                        let places = lemma_queue_hands_on(next, left, rest);
                        let after = handed_on(next, left, rest);
                        assert((seq![one] + after).drop_first() =~= after);
                        assert(left + arrivals(rest) =~= offered.skip(queue.len() as int));
                        lemma_pick_one_more(requests_of(after), offered, places, queue.len() as int)
                    },
                    _ => {
                        let none = Seq::<RoundEventView>::empty();
                        assert(seq![one].drop_first() =~= none);
                        assert(requests_of(none) =~= Seq::empty());
                        assert(requests_of(seq![one]) =~= seq![queue.first()]);
                        seq![0int]
                    },
                }
            },
            QueueEvent::Closed => {
                reveal_with_fuel(requests_of, 2);
                Seq::empty()
            },
            QueueEvent::Elapsed => {
                reveal_with_fuel(requests_of, 2);
                Seq::empty()
            },
        }
    }
}

/// A queue changes only which requests a round takes: the round comes to where it
/// comes to with what it is handed, and the requests that it is handed are among those
/// in the queue and those that come in, in their order and each at most once.
pub proof fn law_queue_only_hands_on(
    round: RoundView,
    queue: Seq<ActorRequestView>,
    events: Seq<QueueEvent>,
)
    ensures
        queued_outcome(round, queue, events) == outcome(round, handed_on(round, queue, events)),
        exists|places: Seq<int>| #[trigger]
            picked_at(requests_of(handed_on(round, queue, events)), queue + arrivals(events), places),
{
    let places = lemma_queue_hands_on(round, queue, events);
}

/// What is queued after `events`. With the change of stage, and with the end of the
/// round, nothing is.
pub open spec fn queue_after(
    round: RoundView,
    queue: Seq<ActorRequestView>,
    events: Seq<QueueEvent>,
) -> Seq<ActorRequestView>
    decreases events.len(),
{
    if events.len() == 0 {
        queue
    } else {
        let rest = events.drop_first();
        match events.first() {
            QueueEvent::Arrived(request) => queue_after(round, queue.push(request), rest),
            QueueEvent::Taken if queue.len() > 0 => match round.next(
                RoundEventView::Received(queue.first()),
            ) {
                RoundStepView::Waiting(next) => queue_after(next, queue.drop_first(), rest),
                RoundStepView::BroadcastCommit { round: next, .. } => queue_after(
                    next,
                    Seq::empty(),
                    rest,
                ),
                _ => Seq::empty(),
            },
            QueueEvent::Taken => queue_after(round, queue, rest),
            _ => Seq::empty(),
        }
    }
}

/// Requests can come in, and there is time for them.
pub open spec fn runs_on(events: Seq<QueueEvent>) -> bool {
    !events.contains(QueueEvent::Closed) && !events.contains(QueueEvent::Elapsed)
}

proof fn lemma_runs_on(events: Seq<QueueEvent>)
    requires
        runs_on(events),
        events.len() > 0,
    ensures
        runs_on(events.drop_first()),
        !(events.first() is Closed),
        !(events.first() is Elapsed),
{
    let rest = events.drop_first();
    assert(events.contains(events[0]));
    assert forall|e: QueueEvent| rest.contains(e) implies events.contains(e) by {
        let i = choose|i: int| 0 <= i < rest.len() && rest[i] == e;
        assert(events[i + 1] == e);
    }
}

proof fn lemma_queued_commit_votes_commit(
    round: RoundView,
    queue: Seq<ActorRequestView>,
    events: Seq<QueueEvent>,
)
    requires
        round.stage == Stage::Commit,
        round.votes < QUORUM,
        runs_on(events),
        queue_after(round, queue, events).len() == 0,
        round.votes + votes_in(queue, Stage::Commit) + votes_in(arrivals(events), Stage::Commit) >= QUORUM,
    ensures
        queued_outcome(round, queue, events) is Committed,
    decreases events.len(),
{
    if events.len() > 0 {
        lemma_runs_on(events);
        let rest = events.drop_first();
        match events.first() {
            QueueEvent::Arrived(request) => {
                assert(queue.push(request) =~= queue + seq![request]);
                lemma_votes_add_up(queue, seq![request], Stage::Commit);
                lemma_votes_add_up(seq![request], arrivals(rest), Stage::Commit);
                lemma_queued_commit_votes_commit(round, queue.push(request), rest);
            },
            _ => {
                if queue.len() == 0 {
                    lemma_queued_commit_votes_commit(round, queue, rest);
                } else if let RoundStepView::Waiting(next) = round.next(
                    RoundEventView::Received(queue.first()),
                ) {
                    lemma_queued_commit_votes_commit(next, queue.drop_first(), rest);
                }
            },
        }
    }
}

/// The index at which the stage changes, where the prepare votes that come in are taken.
proof fn lemma_queued_prepare_votes_change(
    round: RoundView,
    queue: Seq<ActorRequestView>,
    events: Seq<QueueEvent>,
) -> (i: int)
    requires
        round.stage == Stage::Prepare,
        round.votes < QUORUM,
        runs_on(events),
        queue_after(round, queue, events).len() == 0,
        round.votes + votes_in(queue, Stage::Prepare) + votes_in(arrivals(events), Stage::Prepare)
            >= QUORUM,
    ensures
        stage_changes_at(round, queue, events, i),
    decreases events.len(),
{
    if events.len() == 0 {
        0
    } else {
        lemma_runs_on(events);
        let rest = events.drop_first();
        assert forall|i: int| 0 <= i <= rest.len() implies #[trigger] events.take(i + 1).drop_first()
            == rest.take(i) by {
            assert(events.take(i + 1).drop_first() =~= rest.take(i));
        }
        match events.first() {
            QueueEvent::Arrived(request) => {
                assert(queue.push(request) =~= queue + seq![request]);
                lemma_votes_add_up(queue, seq![request], Stage::Prepare);
                lemma_votes_add_up(seq![request], arrivals(rest), Stage::Prepare);
                let i = lemma_queued_prepare_votes_change(round, queue.push(request), rest);
                assert(events.take(i + 1).drop_first() == rest.take(i));
                assert(events.take(i - 1 + 1).drop_first() == rest.take(i - 1));
                i + 1
            },
            _ => {
                if queue.len() == 0 {
                    let i = lemma_queued_prepare_votes_change(round, queue, rest);
                    assert(events.take(i + 1).drop_first() == rest.take(i));
                    assert(events.take(i - 1 + 1).drop_first() == rest.take(i - 1));
                    i + 1
                } else {
                    match round.next(RoundEventView::Received(queue.first())) {
                        RoundStepView::Waiting(next) => {
                            let i = lemma_queued_prepare_votes_change(next, queue.drop_first(), rest);
                            assert(events.take(i + 1).drop_first() == rest.take(i));
                            assert(events.take(i - 1 + 1).drop_first() == rest.take(i - 1));
                            i + 1
                        },
                        RoundStepView::BroadcastCommit { round: next, .. } => {
                            assert(events.take(1).drop_first() =~= rest.take(0));
                            assert(queued_outcome(next, Seq::empty(), rest.take(0))
                                == RoundOutcome::Undecided(next));
                            1
                        },
                        _ => 0,
                    }
                }
            },
        }
    }
}

/// Where a quorum of prepare votes comes in, and what comes in is taken, the stage
/// changes.
pub proof fn law_prepare_quorum_changes_the_stage(
    tx: TransactionView,
    seq_counter: u32,
    view_number: u32,
    queue: Seq<ActorRequestView>,
    events: Seq<QueueEvent>,
)
    requires
        runs_on(events),
        queue_after(RoundView::opened(tx, seq_counter, view_number), queue, events).len() == 0,
        RoundView::opened(tx, seq_counter, view_number).votes + votes_in(queue, Stage::Prepare)
            + votes_in(arrivals(events), Stage::Prepare) >= QUORUM,
    ensures
        exists|i: int| #[trigger]
            stage_changes_at(RoundView::opened(tx, seq_counter, view_number), queue, events, i),
{
    let i = lemma_queued_prepare_votes_change(
        RoundView::opened(tx, seq_counter, view_number),
        queue,
        events,
    );
}

proof fn lemma_queued_commits(
    round: RoundView,
    queue: Seq<ActorRequestView>,
    events: Seq<QueueEvent>,
    i: int,
)
    requires
        round.stage == Stage::Prepare,
        round.votes < QUORUM,
        runs_on(events),
        queue_after(round, queue, events).len() == 0,
        stage_changes_at(round, queue, events, i),
        votes_in(arrivals(events.skip(i)), Stage::Commit) >= QUORUM,
    ensures
        queued_outcome(round, queue, events) is Committed,
    decreases events.len(),
{
    reveal_with_fuel(queued_outcome, 2);
    lemma_runs_on(events);
    let rest = events.drop_first();
    assert(events.take(i).drop_first() =~= rest.take(i - 1));
    assert(events.skip(i) =~= rest.skip(i - 1));
    if i > 1 {
        assert(events.take(i - 1).drop_first() =~= rest.take(i - 2));
    }
    match events.first() {
        QueueEvent::Arrived(request) => {
            if i > 1 {
                lemma_queued_commits(round, queue.push(request), rest, i - 1);
            }
        },
        _ => {
            if queue.len() == 0 {
                if i > 1 {
                    lemma_queued_commits(round, queue, rest, i - 1);
                }
            } else {
                match round.next(RoundEventView::Received(queue.first())) {
                    RoundStepView::Waiting(next) => {
                        if i > 1 {
                            lemma_queued_commits(next, queue.drop_first(), rest, i - 1);
                        }
                    },
                    RoundStepView::BroadcastCommit { round: next, .. } => {
                        if i > 1 {
                            lemma_commit_stage_lasts(next, Seq::empty(), rest.take(i - 2));
                        }
                        assert(rest.skip(0) =~= rest);
                        lemma_queued_commit_votes_commit(next, Seq::empty(), rest);
                    },
                    _ => {},
                }
            }
        },
    }
}

proof fn lemma_commit_stage_lasts(
    round: RoundView,
    queue: Seq<ActorRequestView>,
    events: Seq<QueueEvent>,
)
    requires
        round.stage == Stage::Commit,
    ensures
        queued_outcome(round, queue, events) matches RoundOutcome::Undecided(after) ==> after.stage
            == Stage::Commit,
    decreases events.len(),
{
    reveal_with_fuel(outcome, 2);
    if events.len() > 0 {
        let rest = events.drop_first();
        match events.first() {
            QueueEvent::Arrived(request) => lemma_commit_stage_lasts(round, queue.push(request), rest),
            QueueEvent::Taken => {
                if queue.len() == 0 {
                    lemma_commit_stage_lasts(round, queue, rest);
                } else if let RoundStepView::Waiting(next) = round.next(
                    RoundEventView::Received(queue.first()),
                ) {
                    lemma_commit_stage_lasts(next, queue.drop_first(), rest);
                }
            },
            _ => {},
        }
    }
}

/// A transaction is committed where requests can come in and there is time for them,
/// what comes in is taken, a quorum of prepare votes is in when the stage changes, and
/// a quorum of commit votes comes in after that.
pub proof fn law_queued_quorums_commit(
    tx: TransactionView,
    seq_counter: u32,
    view_number: u32,
    queue: Seq<ActorRequestView>,
    events: Seq<QueueEvent>,
)
    requires
        runs_on(events),
        queue_after(RoundView::opened(tx, seq_counter, view_number), queue, events).len() == 0,
        has_both_quorums_in_turn(RoundView::opened(tx, seq_counter, view_number), queue, events),
    ensures
        queued_outcome(RoundView::opened(tx, seq_counter, view_number), queue, events)
            == RoundOutcome::Committed(tx),
{
    let round = RoundView::opened(tx, seq_counter, view_number);
    let i = choose|i: int|
        {
            &&& #[trigger] stage_changes_at(round, queue, events, i)
            &&& votes_in(arrivals(events.skip(i)), Stage::Commit) >= QUORUM
        };
    lemma_queued_commits(round, queue, events, i);
    law_queue_only_hands_on(round, queue, events);
    law_commits_the_proposal(round, handed_on(round, queue, events));
}

} // verus!
