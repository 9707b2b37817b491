use vstd::prelude::*;

use bitcoin::hashes::Hash as HashExt;

verus! {

/// A Bitcoin transaction, carried through deposit validation. Opaque here:
/// its identity and outputs are read through the trusted readers below.
#[verifier::external_type_specification]
#[verifier::external_body]
pub struct ExTransaction(bitcoin::Transaction);

/// A Bitcoin partial merkle tree: the SPV inclusion proof of a deposit.
#[verifier::external_type_specification]
#[verifier::external_body]
pub struct ExPartialMerkleTree(bitcoin::util::merkleblock::PartialMerkleTree);

/// The 32-byte transaction id (the reversed double SHA-256 display order is
/// not used here; these are the raw digest bytes); a fixed function of the
/// transaction value.
pub uninterp spec fn tx_id(t: bitcoin::Transaction) -> Seq<u8>;

/// The transaction's outputs in index order, each as its satoshi value and
/// its output script bytes.
pub uninterp spec fn tx_outputs(t: bitcoin::Transaction) -> Seq<(u64, Seq<u8>)>;

/// What extracting the proof's matches yields: `None` where the proof is
/// malformed, otherwise the committed merkle root and the matched
/// `(txid, position)` pairs in tree order.
pub uninterp spec fn pmt_extract(p: bitcoin::util::merkleblock::PartialMerkleTree) -> Option<
    (Seq<u8>, Seq<(Seq<u8>, u32)>),
>;

/// Relies on bitcoin's `Transaction::txid`: the double SHA-256 of the
/// transaction's non-witness encoding, 32 bytes, a function of the
/// transaction alone.
#[verifier::external_body]
pub fn compute_txid(t: &bitcoin::Transaction) -> (r: Vec<u8>)
    ensures
        r@ == tx_id(*t),
        r@.len() == 32,
{
    t.txid().as_hash().into_inner().to_vec()
}

/// Relies on the `output` field of bitcoin's `Transaction`: each output's
/// satoshi value and script bytes, in index order.
#[verifier::external_body]
pub fn output_values(t: &bitcoin::Transaction) -> (r: Vec<(u64, Vec<u8>)>)
    ensures
        r@.map_values(|o: (u64, Vec<u8>)| (o.0, o.1@)) == tx_outputs(*t),
{
    t.output.iter().map(|o| (o.value, o.script_pubkey.to_bytes())).collect()
}

/// Relies on bitcoin's `PartialMerkleTree::extract_matches`: deterministic in
/// the proof value, it either rejects a malformed tree or yields its merkle
/// root and the matched `(txid, position)` pairs.
#[verifier::external_body]
pub fn extract_proof(p: &bitcoin::util::merkleblock::PartialMerkleTree) -> (r: Option<
    (Vec<u8>, Vec<(Vec<u8>, u32)>),
>)
    ensures
        match r {
            Some(e) => pmt_extract(*p) == Some(
                (e.0@, e.1@.map_values(|m: (Vec<u8>, u32)| (m.0@, m.1))),
            ),
            None => pmt_extract(*p) is None,
        },
{
    let mut txids = Vec::new();
    let mut indexes = Vec::new();
    match p.extract_matches(&mut txids, &mut indexes) {
        Err(_) => None,
        Ok(root) => {
            let ids = txids.iter().zip(indexes.iter()).map(
                |(t, i)| (t.as_hash().into_inner().to_vec(), *i),
            ).collect();
            Some((root.as_hash().into_inner().to_vec(), ids))
        },
    }
}

} // verus!
