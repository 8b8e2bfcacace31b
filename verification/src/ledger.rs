//! The transaction log, and the state that it amounts to.
use crate::transaction::{Transaction, TransactionView};
use crate::wire::same_bytes;
use vstd::prelude::*;
use vstd::slice::slice_to_vec;

verus! {

/// What the transactions of `log` leave behind, carried out in order.
pub open spec fn replay(log: Seq<TransactionView>) -> Map<Seq<u8>, Seq<u8>>
    decreases log.len(),
{
    if log.len() == 0 {
        Map::empty()
    } else {
        replay(log.drop_last()).insert(log.last().key, log.last().value)
    }
}

/// Committed transactions in order, and for each key the value it has now.
#[derive(Debug)]
pub struct Ledger {
    state: Vec<(Vec<u8>, Vec<u8>)>,
    log: Vec<Transaction>,
}

impl View for Ledger {
    type V = Seq<TransactionView>;

    /// The transactions that were committed.
    closed spec fn view(&self) -> Seq<TransactionView> {
        self.log@.map_values(|tx: Transaction| tx@)
    }
}

/// `entries` lists what `state` holds, each key once.
spec fn lists(entries: Seq<(Vec<u8>, Vec<u8>)>, state: Map<Seq<u8>, Seq<u8>>) -> bool {
    &&& forall|i: int|
        0 <= i < entries.len() ==> state.contains_key((#[trigger] entries[i]).0@)
            && state[entries[i].0@] == entries[i].1@
    &&& forall|i: int, j: int|
        0 <= i < j < entries.len() ==> (#[trigger] entries[i]).0@ != (#[trigger] entries[j]).0@
    &&& forall|key: Seq<u8>| #[trigger]
        state.contains_key(key) ==> exists|i: int|
            0 <= i < entries.len() && (#[trigger] entries[i]).0@ == key
}

impl Ledger {
    /// The state is what the log amounts to.
    pub closed spec fn well_formed(&self) -> bool {
        lists(self.state@, replay(self@))
    }

    /// A ledger without transactions.
    pub fn new() -> (ledger: Ledger)
        ensures
            ledger.well_formed(),
            ledger@ == Seq::<TransactionView>::empty(),
    {
        let ledger = Ledger { state: Vec::new(), log: Vec::new() };
        assert(ledger@ =~= Seq::<TransactionView>::empty());
        ledger
    }

    /// Where the state lists `key`.
    fn position(&self, key: &[u8]) -> (position: Option<usize>)
        requires
            self.well_formed(),
        ensures
            match position {
                Some(i) => i < self.state@.len() && self.state@[i as int].0@ == key@,
                None => !replay(self@).contains_key(key@),
            },
    {
        for i in 0..self.state.len()
            invariant
                self.well_formed(),
                forall|j: int| 0 <= j < i ==> (#[trigger] self.state@[j]).0@ != key@,
        {
            if same_bytes(self.state[i].0.as_slice(), key) {
                return Some(i);
            }
        }
        None
    }

    /// Carries a transaction out and appends it to the log.
    pub fn apply(&mut self, transaction: Transaction)
        requires
            old(self).well_formed(),
        ensures
            final(self).well_formed(),
            final(self)@ == old(self)@.push(transaction@),
            replay(final(self)@) == replay(old(self)@).insert(transaction@.key, transaction@.value),
    {
        let entry = (
            slice_to_vec(transaction.key.as_slice()),
            slice_to_vec(transaction.value.as_slice()),
        );
        let ghost before = self.state@;
        let ghost state = replay(self@).insert(transaction@.key, transaction@.value);
        match self.position(transaction.key.as_slice()) {
            Some(i) => {
                self.state.set(i, entry);
                assert(lists(self.state@, state)) by {
                    assert forall|key: Seq<u8>| #[trigger] state.contains_key(key) implies exists|j: int|
                        0 <= j < self.state@.len() && (#[trigger] self.state@[j]).0@ == key by {
                        assert(replay(old(self)@).contains_key(key));
                        let j = choose|j: int| 0 <= j < before.len() && (#[trigger] before[j]).0@ == key;
                        assert(self.state@[j].0@ == key);
                    }
                }
            },
            None => {
                self.state.push(entry);
                assert(lists(self.state@, state)) by {
                    let last = self.state@.len() - 1;
                    assert(self.state@[last].0@ == transaction@.key);
                    assert forall|key: Seq<u8>| #[trigger] state.contains_key(key) implies exists|j: int|
                        0 <= j < self.state@.len() && (#[trigger] self.state@[j]).0@ == key by {
                        if key != transaction@.key {
                            assert(replay(old(self)@).contains_key(key));
                            let j = choose|j: int|
                                0 <= j < before.len() && (#[trigger] before[j]).0@ == key;
                            assert(self.state@[j].0@ == key);
                        }
                    }
                }
            },
        }
        self.log.push(transaction);
        proof {
            assert(self@ =~= old(self)@.push(transaction@));
            assert(self@.drop_last() =~= old(self)@);
        }
    }

    /// The value that `key` has now.
    pub fn value_of(&self, key: &[u8]) -> (value: Option<Vec<u8>>)
        requires
            self.well_formed(),
        ensures
            match value {
                Some(value) => replay(self@).contains_key(key@) && replay(self@)[key@] == value@,
                None => !replay(self@).contains_key(key@),
            },
    {
        match self.position(key) {
            Some(i) => Some(slice_to_vec(self.state[i].1.as_slice())),
            None => None,
        }
    }

    /// The transactions that were committed, the oldest first.
    pub fn log(&self) -> (log: &Vec<Transaction>)
        ensures
            log@.map_values(|tx: Transaction| tx@) == self@,
    {
        &self.log
    }
}

/// A key has the value that the last transaction on it gave it.
pub proof fn law_last_write_wins(log: Seq<TransactionView>, i: int)
    requires
        0 <= i < log.len(),
        forall|j: int| i < j < log.len() ==> (#[trigger] log[j]).key != log[i].key,
    ensures
        replay(log).contains_key(log[i].key),
        replay(log)[log[i].key] == log[i].value,
    decreases log.len(),
{
    if i < log.len() - 1 {
        assert(log.drop_last()[i] == log[i]);
        law_last_write_wins(log.drop_last(), i);
        assert(log[log.len() - 1].key != log[i].key);
    }
}

/// A key on which there was no transaction has no value.
pub proof fn law_unwritten_keys_are_absent(log: Seq<TransactionView>, key: Seq<u8>)
    requires
        forall|j: int| 0 <= j < log.len() ==> (#[trigger] log[j]).key != key,
    ensures
        !replay(log).contains_key(key),
    decreases log.len(),
{
    if log.len() > 0 {
        assert(log[log.len() - 1].key != key);
        assert forall|j: int| 0 <= j < log.drop_last().len() implies (#[trigger] log.drop_last()[j]).key
            != key by {
            assert(log[j].key != key);
        }
        law_unwritten_keys_are_absent(log.drop_last(), key);
    }
}

/// A new ledger has no transactions, and no key has a value in it.
pub proof fn law_ledger_starts_empty(ledger: &Ledger, key: &[u8], value: Option<Vec<u8>>, log: &Vec<Transaction>)
    requires
        call_ensures(Ledger::new, (), *ledger),
        call_ensures(Ledger::value_of, (ledger, key), value),
        call_ensures(Ledger::log, (ledger,), log),
    ensures
        value is None,
        log@.len() == 0,
        call_requires(Ledger::new, ()),
        call_requires(Ledger::value_of, (ledger, key)),
{
    assert(log@.map_values(|tx: Transaction| tx@).len() == log@.len());
}

/// A transaction sets its key to its value, whatever they are, and no other key. It joins
/// the log at the end, and the log before it stays as it is.
pub proof fn law_transactions_take_effect(
    ledger: &mut Ledger,
    transaction: Transaction,
    after: &Ledger,
    key: &[u8],
    value_before: Option<Vec<u8>>,
    value_after: Option<Vec<u8>>,
    log_before: &Vec<Transaction>,
    log_after: &Vec<Transaction>,
)
    requires
        call_ensures(Ledger::value_of, (&*old(ledger), key), value_before),
        call_ensures(Ledger::log, (&*old(ledger),), log_before),
        call_ensures(Ledger::apply, (ledger, transaction), ()),
        *after == *final(ledger),
        call_ensures(Ledger::value_of, (after, key), value_after),
        call_ensures(Ledger::log, (after,), log_after),
    ensures
        key@ == transaction.key@ ==> (value_after matches Some(value) && value@ == transaction.value@),
        key@ != transaction.key@ ==> (match value_before {
            Some(before) => value_after matches Some(value) && value@ == before@,
            None => value_after is None,
        }),
        log_after@.len() == log_before@.len() + 1,
        log_after@.last()@ == transaction@,
        forall|i: int| 0 <= i < log_before@.len() ==> (#[trigger] log_after@[i])@ == log_before@[i]@,
        old(ledger).well_formed() ==> call_requires(Ledger::apply, (ledger, transaction)),
        call_requires(Ledger::value_of, (after, key)),
{
    let views_before = log_before@.map_values(|tx: Transaction| tx@);
    let views_after = log_after@.map_values(|tx: Transaction| tx@);
    assert(views_after == views_before.push(transaction@));
    assert(views_after.len() == log_after@.len() && views_before.len() == log_before@.len());
    assert(views_after.last() == log_after@.last()@);
    assert forall|i: int| 0 <= i < log_before@.len() implies (#[trigger] log_after@[i])@ == log_before@[i]@ by {
        assert(views_after[i] == log_after@[i]@ && views_before[i] == log_before@[i]@);
    }
}

} // verus!
