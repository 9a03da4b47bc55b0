//! Outpoints and the byte layout of the keys under which outputs are indexed.

use vstd::prelude::*;

verus! {

/// Width of a transaction hash in bytes.
pub const HASH_LEN: usize = 32;

/// Width of an index key in bytes: the transaction hash, then the output index.
pub const KEY_LEN: usize = 36;

/// The four bytes of `index`, least significant first.
pub open spec fn index_bytes(index: u32) -> Seq<u8> {
    seq![
        (index % 0x100) as u8,
        (index / 0x100 % 0x100) as u8,
        (index / 0x1_0000 % 0x100) as u8,
        (index / 0x100_0000) as u8,
    ]
}

/// The key of output `index` of the transaction with hash `txid`: the hash
/// bytes as they are, followed by the index in little-endian order.
pub open spec fn outpoint_key(txid: Seq<u8>, index: u32) -> Seq<u8> {
    txid + index_bytes(index)
}

/// Two indices with the same bytes are the same index.
pub proof fn lemma_index_bytes_injective(a: u32, b: u32)
    requires
        index_bytes(a) == index_bytes(b),
    ensures
        a == b,
{
    let bytes_a = index_bytes(a);
    let bytes_b = index_bytes(b);
    assert(bytes_a[0] == bytes_b[0] && bytes_a[1] == bytes_b[1] && bytes_a[2] == bytes_b[2]
        && bytes_a[3] == bytes_b[3]);
}

/// Two outpoints with hashes of one width and the same key are the same
/// outpoint.
pub proof fn lemma_outpoint_key_injective(txid_a: Seq<u8>, a: u32, txid_b: Seq<u8>, b: u32)
    requires
        txid_a.len() == txid_b.len(),
        outpoint_key(txid_a, a) == outpoint_key(txid_b, b),
    ensures
        txid_a == txid_b,
        a == b,
{
    let key_a = outpoint_key(txid_a, a);
    let key_b = outpoint_key(txid_b, b);
    let width = txid_a.len() as int;
    assert(txid_a =~= key_a.take(width));
    assert(txid_b =~= key_b.take(width));
    assert(index_bytes(a) =~= key_a.skip(width));
    assert(index_bytes(b) =~= key_b.skip(width));
    lemma_index_bytes_injective(a, b);
}

/// A reference to one output of one transaction.
#[derive(Clone, Copy, Debug)]
pub struct TxOutpoint {
    pub txid: [u8; 32],
    pub index: u32,
}

impl TxOutpoint {
    /// The key under which the referenced output is indexed.
    pub open spec fn key(self) -> Seq<u8> {
        outpoint_key(self.txid@, self.index)
    }

    /// The outpoint of output `index` of the transaction with hash `txid`.
    pub fn new(txid: [u8; 32], index: u32) -> (outpoint: TxOutpoint)
        ensures
            outpoint.txid == txid,
            outpoint.index == index,
    {
        TxOutpoint { txid, index }
    }

    /// Serializes the outpoint into its index key.
    pub fn to_bytes(&self) -> (bytes: Vec<u8>)
        ensures
            bytes@ == self.key(),
            bytes@.len() == KEY_LEN,
    {
        let mut bytes: Vec<u8> = Vec::with_capacity(KEY_LEN);
        let mut i: usize = 0;
        while i < HASH_LEN
            invariant
                i <= HASH_LEN,
                bytes@ == self.txid@.take(i as int),
            decreases HASH_LEN - i,
        {
            bytes.push(self.txid[i]);
            i += 1;
        }
        let index: u32 = self.index;
        bytes.push((index % 0x100) as u8);
        bytes.push((index / 0x100 % 0x100) as u8);
        bytes.push((index / 0x1_0000 % 0x100) as u8);
        bytes.push((index / 0x100_0000) as u8);
        bytes
    }
}

} // verus!
