use vstd::prelude::*;

use crate::bytes::{push_bytes, push_u32_be, push_u64_be, u32_be_bytes, u64_be_bytes};
use crate::crypto::{is_valid_pubkey, secp_point_valid};
use crate::error::StateError;
use crate::validators::Validators;

verus! {

/// One signatory: a 33-byte compressed public key and its voting power.
#[derive(Clone, Debug)]
pub struct Signatory {
    pub pubkey: Vec<u8>,
    pub voting_power: u64,
}

/// The signatory set: the keys that collectively custody pegged coins,
/// in the canonical (validator-key-sorted) order they were derived in.
#[derive(Clone, Debug)]
pub struct SignatorySet {
    pub signatories: Vec<Signatory>,
}

/// An immutable `(time, signatory set)` pair appended to history on rotation.
#[derive(Clone, Debug)]
pub struct SignatorySetSnapshot {
    pub time: u64,
    pub signatories: SignatorySet,
}

impl View for Signatory {
    type V = (Seq<u8>, u64);

    open spec fn view(&self) -> (Seq<u8>, u64) {
        (self.pubkey@, self.voting_power)
    }
}

impl View for SignatorySet {
    type V = Seq<(Seq<u8>, u64)>;

    open spec fn view(&self) -> Seq<(Seq<u8>, u64)> {
        self.signatories@.map_values(|s: Signatory| s@)
    }
}

impl View for SignatorySetSnapshot {
    type V = (u64, Seq<(Seq<u8>, u64)>);

    open spec fn view(&self) -> (u64, Seq<(Seq<u8>, u64)>) {
        (self.time, self.signatories@)
    }
}

impl PartialEq for SignatorySet {
    fn eq(&self, other: &SignatorySet) -> (r: bool) {
        let n = self.signatories.len();
        if n != other.signatories.len() {
            assert(self@ != other@);
            return false;
        }
        let mut i: usize = 0;
        while i < n
            invariant
                n == self@.len() == other@.len(),
                i <= n,
                forall|j: int| 0 <= j < i ==> self@[j] == other@[j],
            decreases n - i,
        {
            if !crate::bytes::bytes_eq(&self.signatories[i].pubkey, &other.signatories[i].pubkey) {
                assert(self@[i as int].0 != other@[i as int].0);
                return false;
            }
            if self.signatories[i].voting_power != other.signatories[i].voting_power {
                assert(self@[i as int].1 != other@[i as int].1);
                return false;
            }
            i = i + 1;
        }
        assert(self@ =~= other@);
        true
    }
}

impl vstd::std_specs::cmp::PartialEqSpecImpl for SignatorySet {
    open spec fn obeys_eq_spec() -> bool {
        true
    }

    open spec fn eq_spec(&self, other: &SignatorySet) -> bool {
        self@ == other@
    }
}

impl PartialEq for SignatorySetSnapshot {
    fn eq(&self, other: &SignatorySetSnapshot) -> (r: bool) {
        self.time == other.time && self.signatories == other.signatories
    }
}

impl vstd::std_specs::cmp::PartialEqSpecImpl for SignatorySetSnapshot {
    open spec fn obeys_eq_spec() -> bool {
        true
    }

    open spec fn eq_spec(&self, other: &SignatorySetSnapshot) -> bool {
        self@ == other@
    }
}

/// Every key is a 33-byte compressed secp256k1 point.
pub open spec fn all_keys_valid(s: Seq<(Seq<u8>, u64)>) -> bool {
    forall|i: int|
        0 <= i < s.len() ==> (#[trigger] s[i].0).len() == 33 && secp_point_valid(s[i].0)
}

/// Projects the validator map, in key-sorted order, into a signatory set.
/// Fails if any validator key is not a 33-byte compressed secp256k1 point.
pub fn signatories_from_validators(validators: &Validators) -> (r: Result<
    SignatorySet,
    StateError,
>)
    ensures
        r is Ok <==> all_keys_valid(validators@),
        r is Ok ==> r->Ok_0@ == validators@,
        r is Err ==> r->Err_0 == StateError::BadValidatorKey,
{
    let n = validators.len();
    let mut out: Vec<Signatory> = Vec::new();
    let mut i: usize = 0;
    while i < n
        invariant
            n == validators@.len(),
            i <= n,
            out@.map_values(|s: Signatory| s@) =~= validators@.take(i as int),
            forall|j: int|
                0 <= j < i ==> (#[trigger] validators@[j].0).len() == 33 && secp_point_valid(
                    validators@[j].0,
                ),
        decreases n - i,
    {
        let key = validators.key_at(i);
        if key.len() != 33 {
            assert(!all_keys_valid(validators@));
            return Err(StateError::BadValidatorKey);
        }
        if !is_valid_pubkey(key) {
            assert(!all_keys_valid(validators@));
            return Err(StateError::BadValidatorKey);
        }
        let sig = Signatory { pubkey: key.clone(), voting_power: validators.power_at(i) };
        let ghost prev = out@;
        out.push(sig);
        i = i + 1;
        proof {
            assert(sig@ == validators@[i - 1]);
            assert(out@.map_values(|s: Signatory| s@) =~= prev.map_values(
                |s: Signatory| s@,
            ).push(sig@));
            assert(validators@.take(i as int) =~= validators@.take(i - 1).push(
                validators@[i - 1],
            ));
        }
    }
    let set = SignatorySet { signatories: out };
    assert(validators@.take(n as int) =~= validators@);
    assert(all_keys_valid(validators@));
    Ok(set)
}

/// The per-signatory tail of the deposit output script: a push of each
/// 33-byte key followed by its voting power, big-endian.
pub open spec fn script_sigs(s: Seq<(Seq<u8>, u64)>) -> Seq<u8>
    decreases s.len(),
{
    if s.len() == 0 {
        Seq::<u8>::empty()
    } else {
        seq![0x21u8] + s.first().0 + u64_be_bytes(s.first().1) + script_sigs(s.drop_first())
    }
}

/// The deposit output script a signatory set commits to for a recipient:
/// a push of the 33-byte recipient commitment, a drop, the signatory count
/// and each signatory with its voting power. Depositors share this exact
/// derivation off-chain, so it must never change.
pub open spec fn output_script_spec(s: Seq<(Seq<u8>, u64)>, recipient: Seq<u8>) -> Seq<u8> {
    seq![0x21u8] + recipient + seq![0x75u8] + u32_be_bytes(s.len() as u32) + script_sigs(s)
}

/// Computes the deposit output script for `set` and `recipient`.
pub fn output_script(set: &SignatorySet, recipient: &Vec<u8>) -> (r: Vec<u8>)
    requires
        set@.len() <= 0xffff_ffff,
    ensures
        r@ == output_script_spec(set@, recipient@),
{
    let mut out: Vec<u8> = Vec::new();
    out.push(0x21u8);
    push_bytes(&mut out, recipient);
    out.push(0x75u8);
    let n = set.signatories.len();
    push_u32_be(&mut out, n as u32);
    let ghost base = out@;
    assert(base =~= seq![0x21u8] + recipient@ + seq![0x75u8] + u32_be_bytes(set@.len() as u32));
    let mut i: usize = 0;
    proof {
        assert(set@.skip(0) =~= set@);
    }
    while i < n
        invariant
            n == set@.len(),
            i <= n,
            out@.len() >= base.len(),
            out@.subrange(0, base.len() as int) == base,
            script_sigs(set@) == out@.skip(base.len() as int) + script_sigs(set@.skip(i as int)),
        decreases n - i,
    {
        proof {
            assert(set@.skip(i as int).first() == set@[i as int]);
            assert(set@.skip(i as int).drop_first() =~= set@.skip(i as int + 1));
        }
        out.push(0x21u8);
        push_bytes(&mut out, &set.signatories[i].pubkey);
        push_u64_be(&mut out, set.signatories[i].voting_power);
        i = i + 1;
        proof {
            assert(out@.subrange(0, base.len() as int) =~= base);
            assert(script_sigs(set@) =~= out@.skip(base.len() as int) + script_sigs(
                set@.skip(i as int),
            ));
        }
    }
    proof {
        assert(script_sigs(set@.skip(n as int)) =~= Seq::<u8>::empty());
        assert(script_sigs(set@) =~= out@.skip(base.len() as int));
        assert(out@ =~= out@.subrange(0, base.len() as int) + out@.skip(base.len() as int));
        assert(out@ =~= base + script_sigs(set@));
    }
    out
}

} // verus!
