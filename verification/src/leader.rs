//! What the leader keeps between rounds, and how it meets what comes in then.
use crate::request::{ActorRequest, ActorRequestView};
use crate::transaction::{deserialize_transaction, law_transaction_round_trip, Transaction};
use crate::transaction::TransactionView;
use crate::validation::is_valid;
use crate::wire::InvalidData;
use vstd::prelude::*;
use vstd::utf8::encode_utf8;

verus! {

/// The sequence number of the last transaction of a view.
pub const LAST_OF_VIEW: u32 = 4;

/// The addresses of the connected peers, in the order in which they joined.
pub type PeerRegistry = Vec<String>;

/// What consensus needs from one transaction to the next.
#[derive(Debug)]
pub struct ConsensusToolsStruct {
    pub sequence_counter: u32,
    pub view_number: u32,
    pub registry: PeerRegistry,
}

pub type ConsensusTools = ConsensusToolsStruct;

#[verifier::ext_equal]
pub struct ConsensusToolsView {
    pub sequence_counter: nat,
    pub view_number: nat,
    pub registry: Seq<Seq<char>>,
}

impl View for ConsensusToolsStruct {
    type V = ConsensusToolsView;

    open spec fn view(&self) -> ConsensusToolsView {
        ConsensusToolsView {
            sequence_counter: self.sequence_counter as nat,
            view_number: self.view_number as nat,
            registry: self.registry@.map_values(|address: String| address@),
        }
    }
}

impl ConsensusToolsView {
    /// A leader that has committed nothing and knows nobody.
    pub open spec fn initial() -> ConsensusToolsView {
        ConsensusToolsView { sequence_counter: 0, view_number: 0, registry: Seq::empty() }
    }

    /// After a commit: the next transaction of the view, or the first of the next view.
    pub open spec fn advanced(self) -> ConsensusToolsView {
        if self.sequence_counter >= LAST_OF_VIEW {
            ConsensusToolsView { sequence_counter: 0, view_number: self.view_number + 1, ..self }
        } else {
            ConsensusToolsView { sequence_counter: self.sequence_counter + 1, ..self }
        }
    }

    /// After a number of commits.
    pub open spec fn after_commits(self, commits: nat) -> ConsensusToolsView
        decreases commits,
    {
        if commits == 0 {
            self
        } else {
            self.after_commits((commits - 1) as nat).advanced()
        }
    }
}

/// The view changes on every five transactions, numbered from 0 to 4: the number of
/// commits determines the sequence counter and the view number.
pub proof fn law_views_rotate(commits: nat)
    ensures
        ConsensusToolsView::initial().after_commits(commits).sequence_counter == commits % 5,
        ConsensusToolsView::initial().after_commits(commits).view_number == commits / 5,
    decreases commits,
{
    if commits > 0 {
        law_views_rotate((commits - 1) as nat);
    }
}

/// The order of transactions is strict: after more commits the leader stands at a
/// later view, or at a later transaction of the same view.
pub proof fn law_positions_increase(earlier: nat, later: nat)
    requires
        earlier < later,
    ensures
        ({
            let a = ConsensusToolsView::initial().after_commits(earlier);
            let b = ConsensusToolsView::initial().after_commits(later);
            ||| a.view_number < b.view_number
            ||| a.view_number == b.view_number && a.sequence_counter < b.sequence_counter
        }),
{
    law_views_rotate(earlier);
    law_views_rotate(later);
}

/// A transaction is in order once: where the leader has its vote for one after some
/// commits, it has none for it after more.
pub proof fn law_no_transaction_is_valid_twice(tx: TransactionView, earlier: nat, later: nat)
    requires
        earlier < later,
        later / 5 <= u32::MAX,
        ({
            let then = ConsensusToolsView::initial().after_commits(earlier);
            is_valid(tx, then.sequence_counter as u32, then.view_number as u32)
        }),
    ensures
        ({
            let now = ConsensusToolsView::initial().after_commits(later);
            !is_valid(tx, now.sequence_counter as u32, now.view_number as u32)
        }),
{
    law_views_rotate(earlier);
    law_views_rotate(later);
}

/// The addresses of a registry, one behind the other.
pub open spec fn packed_addresses(registry: Seq<Seq<char>>) -> Seq<u8> {
    registry.map_values(|address: Seq<char>| encode_utf8(address)).flatten()
}

/// One more address goes behind the others.
pub proof fn lemma_pack_one_more(registry: Seq<Seq<char>>, address: Seq<char>)
    ensures
        packed_addresses(registry.push(address)) == packed_addresses(registry) + encode_utf8(address),
{
    let encode = |address: Seq<char>| encode_utf8(address);
    registry.map_values(encode).lemma_flatten_push(encode_utf8(address));
    assert(registry.push(address).map_values(encode) =~= registry.map_values(encode).push(
        encode_utf8(address),
    ));
}

/// A peer that has connected, by its address.
#[derive(Debug)]
pub struct RegistrationRequest {
    pub addr: String,
}

impl ConsensusToolsStruct {
    /// A leader that has committed nothing and knows nobody.
    pub fn new() -> (tools: ConsensusToolsStruct)
        ensures
            tools@ == ConsensusToolsView::initial(),
    {
        let tools = ConsensusToolsStruct {
            sequence_counter: 0,
            view_number: 0,
            registry: Vec::new(),
        };
        assert(tools@.registry =~= Seq::empty());
        tools
    }

    /// Adds a peer to the registry and gives the whole of it, packed for the bootnode.
    pub fn register(&mut self, request: RegistrationRequest) -> (addresses: Vec<u8>)
        ensures
            final(self)@ == (ConsensusToolsView {
                registry: old(self)@.registry.push(request.addr@),
                ..old(self)@
            }),
            addresses@ == packed_addresses(final(self)@.registry),
    {
        self.registry.push(request.addr);
        assert(self@.registry =~= old(self)@.registry.push(request.addr@));
        let mut addresses: Vec<u8> = Vec::new();
        let ghost texts = self@.registry;
        assert(texts.take(0).map_values(|address: Seq<char>| encode_utf8(address)) =~= Seq::empty());
        for i in 0..self.registry.len()
            invariant
                texts == self@.registry,
                texts.len() == self.registry@.len(),
                addresses@ == packed_addresses(texts.take(i as int)),
        {
            addresses.extend_from_slice(self.registry[i].as_str().as_bytes());
            proof {
                let address = self.registry@[i as int]@;
                lemma_pack_one_more(texts.take(i as int), address);
                assert(texts.take(i as int).push(address) =~= texts.take(i + 1));
                assert(addresses@ =~= packed_addresses(texts.take(i as int)) + encode_utf8(address));
            }
        }
        assert(texts.take(texts.len() as int) =~= texts);
        addresses
    }

    /// Moves on after a commit.
    pub fn advance(&mut self)
        requires
            old(self).sequence_counter < u32::MAX,
            old(self).sequence_counter >= LAST_OF_VIEW ==> old(self).view_number < u32::MAX,
        ensures
            final(self)@ == old(self)@.advanced(),
    {
        let seq_counter = self.sequence_counter;
        self.sequence_counter = self.sequence_counter + 1;
        if seq_counter >= LAST_OF_VIEW {
            self.sequence_counter = 0;
            self.view_number = self.view_number + 1;
        }
    }
}

/// What the leader does with a request that comes in between rounds.
#[derive(Debug)]
pub enum ActorStep {
    /// Run consensus on the transaction.
    Propose(Transaction),
    /// Report the message as invalid and drop it.
    Reject,
}

/// Between rounds a request to commit a transaction opens one; a vote is out of place.
///
/// A request whose transaction cannot be read is an error.
pub fn consensus_actor(request: ActorRequest) -> (step: Result<ActorStep, InvalidData>)
    ensures
        match request@ {
            ActorRequestView::PeerVote { .. } => step matches Ok(ActorStep::Reject),
            ActorRequestView::ConsensusRequest { transaction } => match TransactionView::read(
                transaction,
            ) {
                Some(tx) => step matches Ok(ActorStep::Propose(proposed)) && proposed@ == tx,
                None => step matches Err(InvalidData),
            },
        },
{
    match request {
        ActorRequest::ConsensusRequest { transaction } => match deserialize_transaction(
            transaction.as_slice(),
        ) {
            Ok(tx) => Ok(ActorStep::Propose(tx)),
            Err(error) => Err(error),
        },
        ActorRequest::PeerVote { .. } => Ok(ActorStep::Reject),
    }
}

/// A leader starts with the first transaction of the first view, and knows nobody.
pub proof fn law_leader_starts_at_zero(tools: ConsensusToolsStruct)
    requires
        call_ensures(ConsensusToolsStruct::new, (), tools),
    ensures
        tools.sequence_counter == 0,
        tools.view_number == 0,
        tools.registry@.len() == 0,
        call_requires(ConsensusToolsStruct::new, ()),
{
    assert(tools.registry@.len() == tools@.registry.len());
}

/// After a commit the counter goes one up, and after the fifth transaction of a view it
/// goes back to zero and the view one up. The known peers stay as they are.
pub proof fn law_commits_are_counted(tools: &mut ConsensusToolsStruct)
    requires
        call_ensures(ConsensusToolsStruct::advance, (tools,), ()),
    ensures
        old(tools).sequence_counter < 4 ==> final(tools).sequence_counter == old(tools).sequence_counter + 1
            && final(tools).view_number == old(tools).view_number,
        old(tools).sequence_counter >= 4 ==> final(tools).sequence_counter == 0
            && final(tools).view_number == old(tools).view_number + 1,
        final(tools).registry@.map_values(|address: String| address@) == old(
            tools,
        ).registry@.map_values(|address: String| address@),
        old(tools).sequence_counter < u32::MAX && old(tools).view_number < u32::MAX ==> call_requires(
            ConsensusToolsStruct::advance,
            (tools,),
        ),
{
    assert(final(tools)@.registry == old(tools)@.registry);
    assert(final(tools)@.sequence_counter == final(tools).sequence_counter);
    assert(final(tools)@.view_number == final(tools).view_number);
}

/// A registered peer joins the others at the end, and the bootnode is sent the addresses
/// of all of them, whole and one behind the other. Nothing else changes.
pub proof fn law_registration_is_passed_on(
    tools: &mut ConsensusToolsStruct,
    request: RegistrationRequest,
    addresses: Vec<u8>,
)
    requires
        call_ensures(ConsensusToolsStruct::register, (tools, request), addresses),
    ensures
        final(tools).registry@.map_values(|address: String| address@) == old(
            tools,
        ).registry@.map_values(|address: String| address@).push(request.addr@),
        addresses@ == old(tools).registry@.map_values(|address: String| encode_utf8(address@)).flatten()
            + encode_utf8(request.addr@),
        final(tools).sequence_counter == old(tools).sequence_counter,
        final(tools).view_number == old(tools).view_number,
        call_requires(ConsensusToolsStruct::register, (tools, request)),
{
    let known = old(tools)@.registry;
    lemma_pack_one_more(known, request.addr@);
    assert(known.map_values(|address: Seq<char>| encode_utf8(address)) =~= old(
        tools,
    ).registry@.map_values(|address: String| encode_utf8(address@)));
    assert(final(tools)@.sequence_counter == old(tools)@.sequence_counter);
    assert(final(tools)@.view_number == old(tools)@.view_number);
}

/// Between rounds, a request that carries a transaction opens a round on that transaction,
/// whatever follows it. A vote is rejected, whatever it says. A request is an error only if
/// what it carries starts with no transaction.
pub proof fn law_requests_between_rounds(
    request: ActorRequest,
    step: Result<ActorStep, InvalidData>,
    tx: TransactionView,
    rest: Seq<u8>,
)
    requires
        call_ensures(consensus_actor, (request,), step),
        tx.tx_hash.len() == 32,
    ensures
        request is PeerVote ==> step == Ok::<ActorStep, InvalidData>(ActorStep::Reject),
        request is ConsensusRequest ==> !(step matches Ok(ActorStep::Reject)),
        request matches ActorRequest::ConsensusRequest { transaction } ==> {
            &&& transaction@ == tx.wire() + rest && transaction@.len() <= u64::MAX ==> (
            step matches Ok(ActorStep::Propose(proposed)) && proposed@ == tx)
            &&& step is Err ==> !tx.wire().is_prefix_of(transaction@)
            &&& step matches Ok(ActorStep::Propose(proposed)) ==> proposed@.wire().is_prefix_of(
                transaction@,
            )
        },
        call_requires(consensus_actor, (request,)),
{
    if let ActorRequest::ConsensusRequest { transaction } = request {
        if transaction@ == tx.wire() + rest && transaction@.len() <= u64::MAX {
            law_transaction_round_trip(tx, rest);
        }
        if step is Err {
            assert(!tx.starts(transaction@));
        }
        if let Ok(ActorStep::Propose(proposed)) = step {
            assert(proposed@.starts(transaction@));
        }
    }
}

} // verus!
