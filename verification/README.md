# Fortress Protocol

A small pBFT (practical Byzantine fault tolerant) network, with its decisions
written and proved in Verus.

Three kinds of node take part. The *leader* proposes transactions to its peers,
gathers a quorum of prepare votes and then a quorum of commit votes, and commits.
*Peers* vote. The *bootnode* tells new peers who leads and who else is there.

## Layout

- `src/` is the verified library.
  - `wire`, `packet`, `transaction`, `request`: the messages, byte for byte, and
    that each is read back as it was written and never as another.
  - `framing`: messages behind a two-byte length, and a reader that hands out the
    messages of a stream as they were sent, in whatever pieces the bytes come in.
  - `validation`: whether a transaction deserves the leader's own vote.
  - `quorum`, `round`, `queue`: counting votes, and a round of consensus as a state
    machine from events to actions. A transaction is committed with both quorums
    and not without, in whatever order the votes come in, and votes that were
    queued when the stage changed do not count.
  - `leader`: sequence and view numbers, the peer registry, what comes in
    between rounds.
  - `ledger`: the transaction log, and the state that it amounts to.
  - `bootnode`, `buffer`: taking packed address lists apart, keeping what was
    committed, and introducing peers to the network and to its history.
  - `peer`: following the bootnode's word to the leader and to every listed peer,
    taking in the history, and where to listen.
- `app/` is the program around it: sockets, timers, tasks.
- `tests/` runs the library on concrete values.

## What is believed and not proved

The contracts of a few functions of other crates: `bincode` (how the fields of a
message are written and read), `tokio_util`'s length-delimited codec, `sha2`,
`bytes`, `rand`, and `String::from_utf8_lossy` of the standard library. Each stands
in its module behind a function whose doc comment says what is claimed of it.
