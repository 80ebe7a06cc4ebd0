pub mod transaction;
pub mod utxo_set;
pub mod transaction_util;
pub mod encoding;
pub mod block;
pub mod blockchain;
pub mod connection;
pub mod ledger;
