//! A verified index of unspent transaction outputs.
//!
//! While a ledger is replayed block by block, the index answers one question:
//! which outputs are currently unspent, and what does each of them hold? For
//! every transaction, in the order of the ledger, `remove_unspents` takes out
//! what the transaction spends and `insert_unspents` puts in what it pays to a
//! known address; `update_unspents` does the one after the other.
//!
//! - `outpoint`: outpoints, and the byte layout of the keys of the index.
//! - `transaction`: decoded transactions, as far as the index reads them.
//! - `index`: the index, a finite map from keys to unspent entries.
//! - `unspents`: spending and registering, and what each does to the index.
//! - `replay`: one transaction after another, and what the index then holds.
//! - `laws`: what holds of spending and registering in general.
//! - `hex`: hashes as a ledger shows them, for diagnostics.

pub mod hex;
pub mod index;
pub mod laws;
pub mod outpoint;
pub mod replay;
pub mod transaction;
pub mod unspents;

pub use hex::arr_to_hex_swapped;
pub use index::{UnspentValue, UtxoIndex};
pub use outpoint::TxOutpoint;
pub use replay::update_unspents;
pub use transaction::{EvaluatedScript, EvaluatedTxOut, Hashed, Tx, TxInput, TxOutput};
pub use unspents::{ignored_outputs, insert_unspents, remove_unspents};
