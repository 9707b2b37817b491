use vstd::prelude::*;

verus! {

/// The SHA-256 digest of a byte sequence; a fixed function of the bytes alone.
pub uninterp spec fn sha256_of(data: Seq<u8>) -> Seq<u8>;

/// Relies on sha2's SHA-256: the digest is 32 bytes and depends on the input
/// bytes alone.
#[verifier::external_body]
pub fn sha256(data: &Vec<u8>) -> (r: Vec<u8>)
    ensures
        r@ == sha256_of(data@),
        r@.len() == 32,
{
    let mut hasher = <sha2::Sha256 as sha2::Digest>::new();
    sha2::Digest::update(&mut hasher, data.as_slice());
    sha2::Digest::finalize(hasher).to_vec()
}

/// Whether ECDSA verification of `sig` (64-byte compact form) over the 32-byte
/// message `msg` under the compressed public key `key` succeeds; a fixed
/// function of the three byte strings alone (false where any fails to parse).
pub uninterp spec fn secp_verify_ok(msg: Seq<u8>, sig: Seq<u8>, key: Seq<u8>) -> bool;

/// Relies on secp256k1's `verify_ecdsa` (with `Message::from_slice`,
/// `Signature::from_compact` and `PublicKey::from_slice`): deterministic
/// ECDSA verification over the given bytes.
#[verifier::external_body]
pub fn ecdsa_verify(msg: &Vec<u8>, sig: &Vec<u8>, key: &Vec<u8>) -> (r: bool)
    ensures
        r == secp_verify_ok(msg@, sig@, key@),
{
    let ctx = secp256k1::Secp256k1::verification_only();
    let m = match secp256k1::Message::from_slice(msg.as_slice()) {
        Ok(m) => m,
        Err(_) => return false,
    };
    let s = match secp256k1::ecdsa::Signature::from_compact(sig.as_slice()) {
        Ok(s) => s,
        Err(_) => return false,
    };
    let k = match secp256k1::PublicKey::from_slice(key.as_slice()) {
        Ok(k) => k,
        Err(_) => return false,
    };
    ctx.verify_ecdsa(&m, &s, &k).is_ok()
}

/// Whether the bytes parse as a secp256k1 public key; a fixed function of the
/// bytes alone.
pub uninterp spec fn secp_point_valid(key: Seq<u8>) -> bool;

/// Relies on secp256k1's `PublicKey::from_slice`: parsing is deterministic in
/// the key bytes.
#[verifier::external_body]
pub fn is_valid_pubkey(key: &Vec<u8>) -> (r: bool)
    ensures
        r == secp_point_valid(key@),
{
    secp256k1::PublicKey::from_slice(key.as_slice()).is_ok()
}

} // verus!
