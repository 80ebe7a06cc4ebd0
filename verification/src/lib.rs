//! A small UTXO blockchain: transactions, blocks mined by proof of work,
//! the chain with its set of unspent outputs, and the peer protocol's
//! message framing and decisions.

pub mod models;
