# blockchain

A small UTXO blockchain node. The library under `src/` is verified with
Verus; the program under `app/` runs it on a network.

## Library (`src/models/`)

- `transaction.rs` — outputs (`UTXO`), transfers and transactions, with
  their mathematical views and totals.
- `utxo_set.rs` — the set of unspent outputs, keyed by address, viewed as a
  map from address to the list of outputs filed there.
- `transaction_util.rs` — turning a transfer into a transaction over the
  sender's outputs; the transaction conserves value.
- `encoding.rs` — the JSON form of blocks (leaf values written by
  `serde_json`), SHA-256 (by `sha2`) and lower-case hex.
- `block.rs` — blocks, their hash and proof-of-work mining.
- `ledger.rs` — the effect of spending, discarding and crediting outputs,
  and the laws that hold of it (balances, filing, order-independence of
  spending).
- `blockchain.rs` — the chain: accepting transactions, settling blocks,
  balances.
- `connection.rs` — the peer protocol: reading and writing requests, and
  the decisions taken on what peers send.

## Program (`app/`)

`main.rs` starts the node; `connection.rs` holds the sockets and tasks;
`wire.rs` holds serde copies of the library's types for JSON transport.
