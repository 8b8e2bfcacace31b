use fortress_protocol::ledger::Ledger;
use fortress_protocol::transaction::Transaction;

fn write(key: &[u8], value: &[u8]) -> Transaction {
    Transaction {
        consensus_stage: String::new(),
        tx_hash: [0; 32],
        seq_counter: 0,
        view_number: 0,
        client_key: 0,
        source: Vec::new(),
        key: key.to_vec(),
        value: value.to_vec(),
    }
}

#[test]
fn empty_ledger_has_no_values() {
    let ledger = Ledger::new();
    assert_eq!(ledger.value_of(b"a"), None);
    assert!(ledger.log().is_empty());
}

#[test]
fn last_write_to_a_key_wins() {
    let mut ledger = Ledger::new();
    ledger.apply(write(b"a", b"1"));
    ledger.apply(write(b"b", b"2"));
    ledger.apply(write(b"a", b"3"));
    assert_eq!(ledger.value_of(b"a"), Some(b"3".to_vec()));
    assert_eq!(ledger.value_of(b"b"), Some(b"2".to_vec()));
    assert_eq!(ledger.value_of(b"c"), None);
    assert_eq!(ledger.value_of(b""), None);
}

#[test]
fn log_keeps_every_transaction_in_order() {
    let mut ledger = Ledger::new();
    ledger.apply(write(b"a", b"1"));
    ledger.apply(write(b"a", b""));
    assert_eq!(ledger.log(), &vec![write(b"a", b"1"), write(b"a", b"")]);
    assert_eq!(ledger.value_of(b"a"), Some(Vec::new()));
}
