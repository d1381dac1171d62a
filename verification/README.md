# cola (verified building blocks)

Building blocks of a text CRDT replica, written and proved with Verus.

- `src/encoded_replica.rs`: the checksummed envelope (`EncodedReplica`) in
  which a replica travels, its SHA-256 `checksum`, and `DecodeError`.
- `src/run.rs`: anchors, edits, runs of characters, and the characters a
  sequence of runs holds, with the lemmas about them.
- `src/replica.rs`: replica identifiers (`ReplicaId`, a UUID held as its
  128 bits), the conversion of range bounds into a half-open interval, and
  the `Replica`: its runs in text order, `new`, `inserted`, `deleted`,
  `len` and `fork` (a clone with a new identifier), each stated exactly over
  the replica's runs (`after_insert`, `after_delete`), and the laws that
  follow: what the text and all characters become, that characters stay
  distinct, that deleting an insertion restores the text, that two
  adjacent insertions leave what one leaves, and that a replica keeps the
  length of the buffer it mirrors.
- `app/`: the random draw of identifiers and the calls that need it
  (a new replica, its default, its clone), the checks before `inserted` and
  `deleted`, serde support for encoded replicas, the `Debug` rendering of
  identifiers, and the conversion from any `RangeBounds<usize>`.
- `tests/`: executable tests of the library.
