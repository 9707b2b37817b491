use vstd::prelude::*;

use crate::account::{Account, AccountMap, amap_find, amap_index};
use crate::bytes::{bytes_eq, push_bytes, push_u32_be, push_u64_be, u32_be_bytes, u64_be_bytes,
    be_bytes_nat};
use crate::btc::{tx_id, tx_outputs, pmt_extract, compute_txid, output_values, extract_proof};
use crate::crypto::{sha256, sha256_of, secp_verify_ok, ecdsa_verify};
use crate::error::StateError;
use crate::hashset::ByteSet;
use crate::headers::{BtcHeader, EnrichedHeader, HeaderCache, HeaderCacheV, HeaderV, covers,
    link_accepted, raw_accepted, headers_extend};
use crate::signatory::{SignatorySet, SignatorySetSnapshot, all_keys_valid, output_script_spec,
    output_script, signatories_from_validators};
use crate::validators::{Validators, vmap_find, vmap_insert};

verus! {

/// Seconds between signatory-set rotations: one week.
pub const SIGNATORY_CHANGE_INTERVAL: u64 = 604800;

/// Minimum fee of a transfer, in satoshis.
pub const MIN_FEE: u64 = 1000;

/// Minimum work value a proof-of-work redemption must reach.
pub const MIN_WORK: u64 = 1048576;

/// A reference to a Bitcoin output: the transaction id and output index.
#[derive(Clone, Debug)]
pub struct Outpoint {
    pub txid: Vec<u8>,
    pub vout: u32,
}

/// An unspent deposit output held by a signatory set, earmarked for a
/// 33-byte recipient commitment.
#[derive(Clone, Debug)]
pub struct Utxo {
    pub outpoint: Outpoint,
    pub signatory_set_index: u64,
    pub data: Vec<u8>,
}

/// A burn awaiting inclusion in the next outbound Bitcoin checkpoint.
#[derive(Clone, Debug)]
pub struct Withdrawal {
    pub value: u64,
    pub script: Vec<u8>,
}

/// The model of a stored UTXO.
#[verifier::ext_equal]
pub struct UtxoV {
    pub txid: Seq<u8>,
    pub vout: u32,
    pub signatory_set_index: u64,
    pub data: Seq<u8>,
}

impl View for Utxo {
    type V = UtxoV;

    open spec fn view(&self) -> UtxoV {
        UtxoV {
            txid: self.outpoint.txid@,
            vout: self.outpoint.vout,
            signatory_set_index: self.signatory_set_index,
            data: self.data@,
        }
    }
}

impl View for Withdrawal {
    type V = (u64, Seq<u8>);

    open spec fn view(&self) -> (u64, Seq<u8>) {
        (self.value, self.script@)
    }
}

/// A finalized outbound checkpoint: the inputs it spends, the withdrawals it
/// pays, and the signatory set that signs it. Written by the (out-of-scope)
/// checkpoint finalization; this core only defines its encoding.
pub struct Checkpoint {
    pub utxos: Vec<Utxo>,
    pub withdrawals: Vec<Withdrawal>,
    pub signatory_set: SignatorySetSnapshot,
}

/// The model of a finalized checkpoint.
#[verifier::ext_equal]
pub struct CheckpointV {
    pub utxos: Seq<UtxoV>,
    pub withdrawals: Seq<(u64, Seq<u8>)>,
    pub signatory_set: (u64, Seq<(Seq<u8>, u64)>),
}

impl View for Checkpoint {
    type V = CheckpointV;

    open spec fn view(&self) -> CheckpointV {
        CheckpointV {
            utxos: self.utxos@.map_values(|u: Utxo| u@),
            withdrawals: self.withdrawals@.map_values(|w: Withdrawal| w@),
            signatory_set: self.signatory_set@,
        }
    }
}

/// The in-progress multisig round over the next checkpoint. Only the
/// (unimplemented) signature handler may write it.
pub struct ActiveCheckpoint {
    pub is_active: bool,
    pub signatures: Vec<(u16, Vec<u8>)>,
    pub signed_voting_power: u64,
    pub signatory_set: Option<SignatorySetSnapshot>,
    pub utxos: Vec<Withdrawal>,
    pub withdrawals: Vec<Withdrawal>,
}

/// The model of the in-progress checkpoint round.
#[verifier::ext_equal]
pub struct ActiveCheckpointV {
    pub is_active: bool,
    pub signatures: Seq<(u16, Seq<u8>)>,
    pub signed_voting_power: u64,
    pub signatory_set: Option<(u64, Seq<(Seq<u8>, u64)>)>,
    pub utxos: Seq<(u64, Seq<u8>)>,
    pub withdrawals: Seq<(u64, Seq<u8>)>,
}

impl View for ActiveCheckpoint {
    type V = ActiveCheckpointV;

    open spec fn view(&self) -> ActiveCheckpointV {
        ActiveCheckpointV {
            is_active: self.is_active,
            signatures: self.signatures@.map_values(|s: (u16, Vec<u8>)| (s.0, s.1@)),
            signed_voting_power: self.signed_voting_power,
            signatory_set: match self.signatory_set {
                Some(s) => Some(s@),
                None => None,
            },
            utxos: self.utxos@.map_values(|w: Withdrawal| w@),
            withdrawals: self.withdrawals@.map_values(|w: Withdrawal| w@),
        }
    }
}

/// The persistent state of the peg: accounts, replay sets, the signatory-set
/// history, the deposit UTXO queue, pending withdrawals, the SPV header
/// store, and the checkpoint slots.
pub struct State {
    pub accounts: AccountMap,
    pub redeemed_work_hashes: ByteSet,
    pub signatory_sets: Vec<SignatorySetSnapshot>,
    pub processed_deposit_txids: ByteSet,
    pub pending_withdrawals: Vec<Withdrawal>,
    pub utxos: Vec<Utxo>,
    pub headers: HeaderCache,
    pub finalized_checkpoint: Option<Checkpoint>,
    pub active_checkpoint: ActiveCheckpoint,
}

/// The full mathematical model of the state.
#[verifier::ext_equal]
pub struct StateV {
    pub accounts: Seq<(Seq<u8>, Account)>,
    pub redeemed_work_hashes: Seq<Seq<u8>>,
    pub signatory_sets: Seq<(u64, Seq<(Seq<u8>, u64)>)>,
    pub processed_deposit_txids: Seq<Seq<u8>>,
    pub pending_withdrawals: Seq<(u64, Seq<u8>)>,
    pub utxos: Seq<UtxoV>,
    pub headers: HeaderCacheV,
    pub finalized_checkpoint: Option<CheckpointV>,
    pub active_checkpoint: ActiveCheckpointV,
}

impl View for State {
    type V = StateV;

    open spec fn view(&self) -> StateV {
        StateV {
            accounts: self.accounts@,
            redeemed_work_hashes: self.redeemed_work_hashes@,
            signatory_sets: self.signatory_sets@.map_values(|s: SignatorySetSnapshot| s@),
            processed_deposit_txids: self.processed_deposit_txids@,
            pending_withdrawals: self.pending_withdrawals@.map_values(|w: Withdrawal| w@),
            utxos: self.utxos@.map_values(|u: Utxo| u@),
            headers: self.headers@,
            finalized_checkpoint: match self.finalized_checkpoint {
                Some(ref c) => Some(c@),
                None => None,
            },
            active_checkpoint: self.active_checkpoint@,
        }
    }
}

/// Consecutive snapshots are at least a rotation interval apart.
pub open spec fn cadence_ok(sets: Seq<(u64, Seq<(Seq<u8>, u64)>)>) -> bool {
    forall|i: int|
        0 <= i < sets.len() - 1 ==> (#[trigger] sets[i].0) + SIGNATORY_CHANGE_INTERVAL <= sets[i
            + 1].0
}

impl State {
    /// The structural invariant every reachable state satisfies.
    pub open spec fn wf(&self) -> bool {
        &&& self.accounts.wf()
        &&& self.redeemed_work_hashes.wf()
        &&& self.processed_deposit_txids.wf()
        &&& self.headers.wf()
        &&& cadence_ok(self@.signatory_sets)
        &&& forall|i: int|
            0 <= i < self@.signatory_sets.len() ==> (#[trigger] self@.signatory_sets[i]).1.len()
                <= 0xffff_ffff
    }

    /// A fresh, empty state: what every replica starts from.
    pub fn new() -> (s: State)
        ensures
            s.wf(),
            s@.accounts =~= Seq::<(Seq<u8>, Account)>::empty(),
            s@.redeemed_work_hashes =~= Seq::<Seq<u8>>::empty(),
            s@.signatory_sets =~= Seq::<(u64, Seq<(Seq<u8>, u64)>)>::empty(),
            s@.processed_deposit_txids =~= Seq::<Seq<u8>>::empty(),
            s@.pending_withdrawals =~= Seq::<(u64, Seq<u8>)>::empty(),
            s@.utxos =~= Seq::<UtxoV>::empty(),
            s@.headers.headers =~= Seq::<HeaderV>::empty(),
            s@.finalized_checkpoint is None,
            !s@.active_checkpoint.is_active,
    {
        State {
            accounts: AccountMap::new(),
            redeemed_work_hashes: ByteSet::new(),
            signatory_sets: Vec::new(),
            processed_deposit_txids: ByteSet::new(),
            pending_withdrawals: Vec::new(),
            utxos: Vec::new(),
            headers: HeaderCache::new(),
            finalized_checkpoint: None,
            active_checkpoint: ActiveCheckpoint {
                is_active: false,
                signatures: Vec::new(),
                signed_voting_power: 0,
                signatory_set: None,
                utxos: Vec::new(),
                withdrawals: Vec::new(),
            },
        }
    }

    /// The most recent signatory-set snapshot; the history must be non-empty
    /// (it is after the first BeginBlock).
    pub fn current_signatory_set(&self) -> (r: Result<&SignatorySetSnapshot, StateError>)
        ensures
            self@.signatory_sets.len() > 0 ==> (r is Ok && r->Ok_0@ == self@.signatory_sets.last()),
            self@.signatory_sets.len() == 0 ==> r is Err,
    {
        let n = self.signatory_sets.len();
        if n == 0 {
            Err(StateError::BadHeaderChain)
        } else {
            Ok(&self.signatory_sets[n - 1])
        }
    }
}

/// A signed, nonced account-to-account transfer with a burned fee.
#[derive(Clone, Debug)]
pub struct TransferTransaction {
    pub from: Vec<u8>,
    pub to: Vec<u8>,
    pub amount: u64,
    pub fee_amount: u64,
    pub nonce: u64,
    pub signature: Vec<u8>,
}

/// The model of a transfer.
#[verifier::ext_equal]
pub struct TransferTxV {
    pub from: Seq<u8>,
    pub to: Seq<u8>,
    pub amount: u64,
    pub fee_amount: u64,
    pub nonce: u64,
    pub signature: Seq<u8>,
}

impl View for TransferTransaction {
    type V = TransferTxV;

    open spec fn view(&self) -> TransferTxV {
        TransferTxV {
            from: self.from@,
            to: self.to@,
            amount: self.amount,
            fee_amount: self.fee_amount,
            nonce: self.nonce,
            signature: self.signature@,
        }
    }
}

/// A signed, nonced burn that queues a Bitcoin withdrawal to `to`.
#[derive(Clone, Debug)]
pub struct WithdrawalTransaction {
    pub from: Vec<u8>,
    pub to: Vec<u8>,
    pub amount: u64,
    pub nonce: u64,
    pub signature: Vec<u8>,
}

/// The model of a withdrawal.
#[verifier::ext_equal]
pub struct WithdrawalTxV {
    pub from: Seq<u8>,
    pub to: Seq<u8>,
    pub amount: u64,
    pub nonce: u64,
    pub signature: Seq<u8>,
}

impl View for WithdrawalTransaction {
    type V = WithdrawalTxV;

    open spec fn view(&self) -> WithdrawalTxV {
        WithdrawalTxV {
            from: self.from@,
            to: self.to@,
            amount: self.amount,
            nonce: self.nonce,
            signature: self.signature@,
        }
    }
}

/// A proof-of-work voting-power redemption.
#[derive(Clone, Debug)]
pub struct WorkProofTransaction {
    pub public_key: Vec<u8>,
    pub nonce: u64,
}

/// An ordered batch of Bitcoin headers for the SPV store.
pub struct HeaderTransaction {
    pub block_headers: Vec<BtcHeader>,
}

/// An SPV-proved Bitcoin deposit.
pub struct DepositTransaction {
    pub height: u32,
    pub proof: bitcoin::util::merkleblock::PartialMerkleTree,
    pub tx: bitcoin::Transaction,
    pub block_index: u32,
    pub recipients: Vec<Vec<u8>>,
}

/// The model of a deposit: its plain fields together with what the trusted
/// readers yield of the opaque transaction and proof.
#[verifier::ext_equal]
pub struct DepositTxV {
    pub height: u32,
    pub block_index: u32,
    pub recipients: Seq<Seq<u8>>,
    pub txid: Seq<u8>,
    pub outputs: Seq<(u64, Seq<u8>)>,
    pub extract: Option<(Seq<u8>, Seq<(Seq<u8>, u32)>)>,
}

impl View for DepositTransaction {
    type V = DepositTxV;

    open spec fn view(&self) -> DepositTxV {
        DepositTxV {
            height: self.height,
            block_index: self.block_index,
            recipients: self.recipients@.map_values(|r: Vec<u8>| r@),
            txid: tx_id(self.tx),
            outputs: tx_outputs(self.tx),
            extract: pmt_extract(self.proof),
        }
    }
}

/// A checkpoint-signature submission; the handler is not implemented and
/// rejects every call.
pub struct SignatureTransaction {
    pub signatures: Vec<Vec<u8>>,
}

/// One transaction, as dispatched to exactly one handler.
pub enum Tx {
    WorkProof(WorkProofTransaction),
    Header(HeaderTransaction),
    Deposit(DepositTransaction),
    Transfer(TransferTransaction),
    Withdrawal(WithdrawalTransaction),
    Signature(SignatureTransaction),
}

/// One unit of input from the consensus engine.
pub enum Action {
    BeginBlock { time_seconds: u64 },
    Transaction(Tx),
}

/// The model of an action.
pub enum ActionV {
    BeginBlock { time_seconds: u64 },
    WorkProof { public_key: Seq<u8>, nonce: u64 },
    Header { block_headers: Seq<HeaderV> },
    Deposit(DepositTxV),
    Transfer(TransferTxV),
    Withdrawal(WithdrawalTxV),
    Signature,
}

impl View for Action {
    type V = ActionV;

    open spec fn view(&self) -> ActionV {
        match self {
            Action::BeginBlock { time_seconds } => ActionV::BeginBlock {
                time_seconds: *time_seconds,
            },
            Action::Transaction(t) => match t {
                Tx::WorkProof(tx) => ActionV::WorkProof {
                    public_key: tx.public_key@,
                    nonce: tx.nonce,
                },
                Tx::Header(tx) => ActionV::Header {
                    block_headers: tx.block_headers@.map_values(|h: BtcHeader| h@),
                },
                Tx::Deposit(tx) => ActionV::Deposit(tx@),
                Tx::Transfer(tx) => ActionV::Transfer(tx@),
                Tx::Withdrawal(tx) => ActionV::Withdrawal(tx@),
                Tx::Signature(_) => ActionV::Signature,
            },
        }
    }
}

// ---------------------------------------------------------------------------
// Sighashes
// ---------------------------------------------------------------------------

/// The canonical bytes a transfer signature commits to: every field but the
/// signature, length-prefixed and big-endian, under a domain tag.
pub open spec fn transfer_sighash_bytes(tx: TransferTxV) -> Seq<u8> {
    seq![0u8] + u64_be_bytes(tx.from.len() as u64) + tx.from + u64_be_bytes(tx.to.len() as u64)
        + tx.to + u64_be_bytes(tx.amount) + u64_be_bytes(tx.fee_amount) + u64_be_bytes(tx.nonce)
}

/// The canonical bytes a withdrawal signature commits to.
pub open spec fn withdrawal_sighash_bytes(tx: WithdrawalTxV) -> Seq<u8> {
    seq![1u8] + u64_be_bytes(tx.from.len() as u64) + tx.from + u64_be_bytes(tx.to.len() as u64)
        + tx.to + u64_be_bytes(tx.amount) + u64_be_bytes(tx.nonce)
}

impl TransferTransaction {
    /// The 32-byte digest a transfer is signed over.
    pub fn sighash(&self) -> (r: Vec<u8>)
        ensures
            r@ == sha256_of(transfer_sighash_bytes(self@)),
            r@.len() == 32,
    {
        let mut buf: Vec<u8> = Vec::new();
        buf.push(0u8);
        push_u64_be(&mut buf, self.from.len() as u64);
        push_bytes(&mut buf, &self.from);
        push_u64_be(&mut buf, self.to.len() as u64);
        push_bytes(&mut buf, &self.to);
        push_u64_be(&mut buf, self.amount);
        push_u64_be(&mut buf, self.fee_amount);
        push_u64_be(&mut buf, self.nonce);
        assert(buf@ =~= transfer_sighash_bytes(self@));
        sha256(&buf)
    }
}

impl WithdrawalTransaction {
    /// The 32-byte digest a withdrawal is signed over.
    pub fn sighash(&self) -> (r: Vec<u8>)
        ensures
            r@ == sha256_of(withdrawal_sighash_bytes(self@)),
            r@.len() == 32,
    {
        let mut buf: Vec<u8> = Vec::new();
        buf.push(1u8);
        push_u64_be(&mut buf, self.from.len() as u64);
        push_bytes(&mut buf, &self.from);
        push_u64_be(&mut buf, self.to.len() as u64);
        push_bytes(&mut buf, &self.to);
        push_u64_be(&mut buf, self.amount);
        push_u64_be(&mut buf, self.nonce);
        assert(buf@ =~= withdrawal_sighash_bytes(self@));
        sha256(&buf)
    }
}

// ---------------------------------------------------------------------------
// Spec-level transitions
// ---------------------------------------------------------------------------

/// The first error a transfer trips over, or `None` when it is accepted.
/// An account whose nonce space is exhausted (nonce at the 64-bit maximum)
/// is refused with the nonce error: the nonce is strictly monotonic over an
/// account's successful signed actions and never wraps.
pub open spec fn transfer_error(s: StateV, tx: TransferTxV) -> Option<StateError> {
    if tx.from == tx.to {
        Some(StateError::SelfTransfer)
    } else if tx.fee_amount < MIN_FEE {
        Some(StateError::FeeTooSmall)
    } else if tx.from.len() != 33 {
        Some(StateError::BadAddress { sender: true })
    } else if tx.to.len() != 33 {
        Some(StateError::BadAddress { sender: false })
    } else {
        match amap_find(s.accounts, tx.from) {
            None => Some(StateError::NoAccount),
            Some(acct) => if acct.balance < tx.amount + tx.fee_amount {
                Some(StateError::InsufficientBalance)
            } else if tx.nonce != acct.nonce || acct.nonce == 0xffff_ffff_ffff_ffff {
                Some(StateError::BadNonce { withdrawal: false })
            } else if !secp_verify_ok(
                sha256_of(transfer_sighash_bytes(tx)),
                tx.signature,
                tx.from,
            ) {
                Some(StateError::BadSignature)
            } else {
                None
            },
        }
    }
}

/// Credits `value` to `addr`, creating the account on first credit and
/// saturating its balance at the 64-bit maximum.
pub open spec fn credit(
    accounts: Seq<(Seq<u8>, Account)>,
    addr: Seq<u8>,
    value: u64,
) -> Seq<(Seq<u8>, Account)> {
    let acct = match amap_find(accounts, addr) {
        Some(a) => a,
        None => Account { balance: 0, nonce: 0 },
    };
    let newbal = if acct.balance + value > 0xffff_ffff_ffff_ffff {
        0xffff_ffff_ffff_ffffu64
    } else {
        (acct.balance + value) as u64
    };
    let updated = Account { balance: newbal, nonce: acct.nonce };
    if amap_find(accounts, addr) is Some {
        accounts.update(amap_index(accounts, addr), (addr, updated))
    } else {
        accounts.push((addr, updated))
    }
}

/// The accounts after an accepted transfer: the sender pays amount and fee
/// and steps its nonce; the recipient gains the amount.
pub open spec fn transfer_apply(
    accounts: Seq<(Seq<u8>, Account)>,
    tx: TransferTxV,
) -> Seq<(Seq<u8>, Account)> {
    let sender = amap_find(accounts, tx.from)->Some_0;
    let debited = Account {
        balance: (sender.balance - tx.amount - tx.fee_amount) as u64,
        nonce: (sender.nonce + 1) as u64,
    };
    let mid = accounts.update(amap_index(accounts, tx.from), (tx.from, debited));
    credit(mid, tx.to, tx.amount)
}

/// The state after a transfer action.
pub open spec fn transfer_step(s: StateV, tx: TransferTxV) -> (StateV, Option<StateError>) {
    match transfer_error(s, tx) {
        Some(e) => (s, Some(e)),
        None => (StateV { accounts: transfer_apply(s.accounts, tx), ..s }, None),
    }
}

/// The first error a withdrawal trips over, or `None` when it is accepted.
pub open spec fn withdrawal_error(s: StateV, tx: WithdrawalTxV) -> Option<StateError> {
    if tx.from.len() != 33 {
        Some(StateError::BadAddress { sender: true })
    } else {
        match amap_find(s.accounts, tx.from) {
            None => Some(StateError::NoAccount),
            Some(acct) => if acct.balance < tx.amount {
                Some(StateError::InsufficientBalance)
            } else if tx.nonce != acct.nonce || acct.nonce == 0xffff_ffff_ffff_ffff {
                Some(StateError::BadNonce { withdrawal: true })
            } else if !secp_verify_ok(
                sha256_of(withdrawal_sighash_bytes(tx)),
                tx.signature,
                tx.from,
            ) {
                Some(StateError::BadSignature)
            } else {
                None
            },
        }
    }
}

/// The state after a withdrawal action: the burn leaves the sender and a
/// pending withdrawal record is queued.
pub open spec fn withdrawal_step(s: StateV, tx: WithdrawalTxV) -> (StateV, Option<StateError>) {
    match withdrawal_error(s, tx) {
        Some(e) => (s, Some(e)),
        None => {
            let sender = amap_find(s.accounts, tx.from)->Some_0;
            let debited = Account {
                balance: (sender.balance - tx.amount) as u64,
                nonce: (sender.nonce + 1) as u64,
            };
            (
                StateV {
                    accounts: s.accounts.update(
                        amap_index(s.accounts, tx.from),
                        (tx.from, debited),
                    ),
                    pending_withdrawals: s.pending_withdrawals.push((tx.amount, tx.to)),
                    ..s
                },
                None,
            )
        },
    }
}

/// The work-proof hash: SHA-256 of the public key followed by the nonce in
/// big-endian.
pub open spec fn work_proof_hash(public_key: Seq<u8>, nonce: u64) -> Seq<u8> {
    sha256_of(public_key + u64_be_bytes(nonce))
}

/// The state and validator map after a work-proof action: sufficient, fresh
/// work grants the estimate as voting power, saturating, and records the
/// hash against replay.
pub open spec fn work_proof_step(
    s: StateV,
    v: Seq<(Seq<u8>, u64)>,
    public_key: Seq<u8>,
    nonce: u64,
) -> (StateV, Seq<(Seq<u8>, u64)>, Option<StateError>) {
    let h = work_proof_hash(public_key, nonce);
    let w = crate::work::work_nat(be_bytes_nat(h));
    if w < MIN_WORK {
        (s, v, Some(StateError::InsufficientWork))
    } else if s.redeemed_work_hashes.contains(h) {
        (s, v, Some(StateError::WorkReplay))
    } else {
        let cur = match vmap_find(v, public_key) {
            Some(p) => p,
            None => 0u64,
        };
        let grant = if cur + w > 0xffff_ffff_ffff_ffff {
            0xffff_ffff_ffff_ffffu64
        } else {
            (cur + w) as u64
        };
        (
            StateV { redeemed_work_hashes: s.redeemed_work_hashes.push(h), ..s },
            vmap_insert(v, public_key, grant),
            None,
        )
    }
}

/// The state after a BeginBlock: initializes the signatory history, rotates
/// it once an interval has elapsed, or leaves it unchanged.
pub open spec fn begin_block_step(
    s: StateV,
    v: Seq<(Seq<u8>, u64)>,
    time_seconds: u64,
) -> (StateV, Option<StateError>) {
    if s.signatory_sets.len() == 0 {
        if all_keys_valid(v) {
            (StateV { signatory_sets: s.signatory_sets.push((time_seconds, v)), ..s }, None)
        } else {
            (s, Some(StateError::BadValidatorKey))
        }
    } else {
        let last = s.signatory_sets.last();
        if time_seconds >= last.0 && time_seconds - last.0 >= SIGNATORY_CHANGE_INTERVAL {
            if all_keys_valid(v) {
                (StateV { signatory_sets: s.signatory_sets.push((time_seconds, v)), ..s }, None)
            } else {
                (s, Some(StateError::BadValidatorKey))
            }
        } else {
            (s, None)
        }
    }
}

/// The state after a header action: all headers append atomically, or the
/// action fails and nothing is stored.
pub open spec fn header_step(s: StateV, hs: Seq<HeaderV>) -> (StateV, Option<StateError>) {
    let (c2, ok) = headers_extend(s.headers, hs);
    if ok {
        (StateV { headers: c2, ..s }, None)
    } else {
        (s, Some(StateError::BadHeaderChain))
    }
}

/// The first signatory-set index whose deposit script for `recipient`
/// equals `script`, scanning the history in insertion order.
pub open spec fn first_matching_set(
    sets: Seq<(u64, Seq<(Seq<u8>, u64)>)>,
    script: Seq<u8>,
    recipient: Seq<u8>,
) -> Option<int>
    decreases sets.len(),
{
    if sets.len() == 0 {
        None
    } else if output_script_spec(sets.first().1, recipient) == script {
        Some(0)
    } else {
        match first_matching_set(sets.drop_first(), script, recipient) {
            Some(i) => Some(i + 1),
            None => None,
        }
    }
}

/// The deposit outputs, from index `i` on, that match some signatory set:
/// each as its set index, satoshi value, and output index.
pub open spec fn deposit_matches_from(
    sets: Seq<(u64, Seq<(Seq<u8>, u64)>)>,
    outputs: Seq<(u64, Seq<u8>)>,
    recipient: Seq<u8>,
    i: int,
) -> Seq<(int, u64, int)>
    decreases outputs.len() - i,
{
    if i < 0 || i >= outputs.len() {
        Seq::empty()
    } else {
        let rest = deposit_matches_from(sets, outputs, recipient, i + 1);
        match first_matching_set(sets, outputs[i].1, recipient) {
            Some(si) => seq![(si, outputs[i].0, i)] + rest,
            None => rest,
        }
    }
}

/// Folds the matched outputs into the state: each credits the recipient and
/// queues a UTXO under its signatory set.
pub open spec fn apply_matches(
    accounts: Seq<(Seq<u8>, Account)>,
    utxos: Seq<UtxoV>,
    matches: Seq<(int, u64, int)>,
    txid: Seq<u8>,
    recipient: Seq<u8>,
) -> (Seq<(Seq<u8>, Account)>, Seq<UtxoV>)
    decreases matches.len(),
{
    if matches.len() == 0 {
        (accounts, utxos)
    } else {
        let m = matches.first();
        let acc2 = credit(accounts, recipient, m.1);
        let ut2 = utxos.push(
            UtxoV {
                txid: txid,
                vout: m.2 as u32,
                signatory_set_index: m.0 as u64,
                data: recipient,
            },
        );
        apply_matches(acc2, ut2, matches.drop_first(), txid, recipient)
    }
}

/// The first error a deposit trips over, or `None` when it is accepted.
pub open spec fn deposit_error(s: StateV, d: DepositTxV) -> Option<StateError> {
    if s.processed_deposit_txids.contains(d.txid) {
        Some(StateError::AlreadyProcessed)
    } else if !covers(s.headers, d.height) {
        Some(StateError::HeaderMissing)
    } else {
        let root = s.headers.headers[d.height - s.headers.base].merkle_root;
        match d.extract {
            None => Some(StateError::MerkleMismatch),
            Some(e) => if !(e.0 == root && e.1 == seq![(d.txid, d.block_index)]) {
                Some(StateError::MerkleMismatch)
            } else if d.outputs.len() > 0 && d.recipients.len() == 0 {
                Some(StateError::RecipientsExhausted)
            } else if d.outputs.len() > 0 && d.recipients.first().len() != 33 {
                Some(StateError::BadRecipient)
            } else if deposit_matches_from(
                s.signatory_sets,
                d.outputs,
                if d.recipients.len() > 0 {
                    d.recipients.first()
                } else {
                    Seq::empty()
                },
                0,
            ).len() == 0 {
                Some(StateError::NoDepositOutputs)
            } else {
                None
            },
        }
    }
}

/// The state after a deposit action: matched outputs mint balances and queue
/// UTXOs, and the txid is recorded against replay.
pub open spec fn deposit_step(s: StateV, d: DepositTxV) -> (StateV, Option<StateError>) {
    match deposit_error(s, d) {
        Some(e) => (s, Some(e)),
        None => {
            let recipient = d.recipients.first();
            let matches = deposit_matches_from(s.signatory_sets, d.outputs, recipient, 0);
            let (acc2, ut2) = apply_matches(s.accounts, s.utxos, matches, d.txid, recipient);
            (
                StateV {
                    accounts: acc2,
                    utxos: ut2,
                    processed_deposit_txids: s.processed_deposit_txids.push(d.txid),
                    ..s
                },
                None,
            )
        },
    }
}

/// The full transition of one action: the state and validator map after it,
/// and the error it was rejected with, if any. On a rejection the state and
/// the validator map are the pre-action ones.
pub open spec fn run_step(s: StateV, v: Seq<(Seq<u8>, u64)>, a: ActionV) -> (
    StateV,
    Seq<(Seq<u8>, u64)>,
    Option<StateError>,
) {
    match a {
        ActionV::BeginBlock { time_seconds } => {
            let (s2, e) = begin_block_step(s, v, time_seconds);
            (s2, v, e)
        },
        ActionV::WorkProof { public_key, nonce } => work_proof_step(s, v, public_key, nonce),
        ActionV::Header { block_headers } => {
            let (s2, e) = header_step(s, block_headers);
            (s2, v, e)
        },
        ActionV::Deposit(d) => {
            let (s2, e) = deposit_step(s, d);
            (s2, v, e)
        },
        ActionV::Transfer(tx) => {
            let (s2, e) = transfer_step(s, tx);
            (s2, v, e)
        },
        ActionV::Withdrawal(tx) => {
            let (s2, e) = withdrawal_step(s, tx);
            (s2, v, e)
        },
        ActionV::Signature => (s, v, Some(StateError::Unimplemented)),
    }
}

/// The result of `run` as the model sees it.
pub open spec fn err_of(r: Result<(), StateError>) -> Option<StateError> {
    match r {
        Ok(_) => None,
        Err(e) => Some(e),
    }
}


// ---------------------------------------------------------------------------
// Executable handlers
// ---------------------------------------------------------------------------

/// Credits `value` to the account at `addr`, creating it on first credit and
/// saturating at the 64-bit maximum.
fn credit_account(accounts: &mut AccountMap, addr: &Vec<u8>, value: u64)
    requires
        old(accounts).wf(),
    ensures
        final(accounts).wf(),
        final(accounts)@ == credit(old(accounts)@, addr@, value),
{
    let acct = match accounts.get(addr) {
        Some(a) => a,
        None => Account { balance: 0, nonce: 0 },
    };
    let newbal = if value > 0xffff_ffff_ffff_ffffu64 - acct.balance {
        0xffff_ffff_ffff_ffffu64
    } else {
        acct.balance + value
    };
    accounts.insert(addr, Account { balance: newbal, nonce: acct.nonce });
}

/// Applies a signed transfer: checked in order, then the sender pays the
/// amount and the burned fee and steps its nonce, and the recipient gains
/// the amount.
pub fn handle_transfer_tx(state: &mut State, tx: TransferTransaction) -> (r: Result<
    (),
    StateError,
>)
    requires
        old(state).wf(),
    ensures
        final(state).wf(),
        (final(state)@, err_of(r)) == transfer_step(old(state)@, tx@),
{
    if bytes_eq(&tx.from, &tx.to) {
        return Err(StateError::SelfTransfer);
    }
    if tx.fee_amount < MIN_FEE {
        return Err(StateError::FeeTooSmall);
    }
    if tx.from.len() != 33 {
        return Err(StateError::BadAddress { sender: true });
    }
    if tx.to.len() != 33 {
        return Err(StateError::BadAddress { sender: false });
    }
    let sender = match state.accounts.get(&tx.from) {
        None => {
            return Err(StateError::NoAccount);
        },
        Some(a) => a,
    };
    if sender.balance < tx.amount || sender.balance - tx.amount < tx.fee_amount {
        return Err(StateError::InsufficientBalance);
    }
    if tx.nonce != sender.nonce || sender.nonce == 0xffff_ffff_ffff_ffffu64 {
        return Err(StateError::BadNonce { withdrawal: false });
    }
    let sh = tx.sighash();
    if !ecdsa_verify(&sh, &tx.signature, &tx.from) {
        return Err(StateError::BadSignature);
    }
    let debited = Account {
        balance: sender.balance - tx.amount - tx.fee_amount,
        nonce: sender.nonce + 1,
    };
    state.accounts.insert(&tx.from, debited);
    proof {
        assert(state@.accounts == old(state)@.accounts.update(
            amap_index(old(state)@.accounts, tx@.from),
            (tx@.from, debited),
        ));
    }
    credit_account(&mut state.accounts, &tx.to, tx.amount);
    proof {
        assert(state@.accounts == transfer_apply(old(state)@.accounts, tx@));
        assert(state@ =~~= StateV { accounts: transfer_apply(old(state)@.accounts, tx@), ..old(
            state,
        )@ });
        assert(transfer_error(old(state)@, tx@) is None);
    }
    Ok(())
}

/// Applies a signed withdrawal: the burn leaves the sender, its nonce steps,
/// and a pending withdrawal record targeting the Bitcoin script is queued.
pub fn handle_withdrawal_tx(state: &mut State, tx: WithdrawalTransaction) -> (r: Result<
    (),
    StateError,
>)
    requires
        old(state).wf(),
    ensures
        final(state).wf(),
        (final(state)@, err_of(r)) == withdrawal_step(old(state)@, tx@),
{
    if tx.from.len() != 33 {
        return Err(StateError::BadAddress { sender: true });
    }
    let sender = match state.accounts.get(&tx.from) {
        None => {
            return Err(StateError::NoAccount);
        },
        Some(a) => a,
    };
    if sender.balance < tx.amount {
        return Err(StateError::InsufficientBalance);
    }
    if tx.nonce != sender.nonce || sender.nonce == 0xffff_ffff_ffff_ffffu64 {
        return Err(StateError::BadNonce { withdrawal: true });
    }
    let sh = tx.sighash();
    if !ecdsa_verify(&sh, &tx.signature, &tx.from) {
        return Err(StateError::BadSignature);
    }
    let debited = Account { balance: sender.balance - tx.amount, nonce: sender.nonce + 1 };
    let ghost txv = tx@;
    state.accounts.insert(&tx.from, debited);
    proof {
        assert(state@.accounts == old(state)@.accounts.update(
            amap_index(old(state)@.accounts, txv.from),
            (txv.from, debited),
        ));
    }
    let record = Withdrawal { value: tx.amount, script: tx.to };
    proof {
        assert(record@ == (txv.amount, txv.to));
    }
    state.pending_withdrawals.push(record);
    proof {
        assert(withdrawal_error(old(state)@, txv) is None);
        assert(state@.pending_withdrawals =~= old(state)@.pending_withdrawals.push(
            (txv.amount, txv.to),
        ));
        assert(state@ =~~= withdrawal_step(old(state)@, txv).0);
    }
    Ok(())
}

/// Applies a work proof: hashes the key and nonce, requires the minimum work
/// and a fresh hash, then grants the work value as voting power.
pub fn handle_work_proof_tx(
    state: &mut State,
    validators: &mut Validators,
    tx: WorkProofTransaction,
) -> (r: Result<(), StateError>)
    requires
        old(state).wf(),
        old(validators).wf(),
    ensures
        final(state).wf(),
        final(validators).wf(),
        (final(state)@, final(validators)@, err_of(r)) == work_proof_step(
            old(state)@,
            old(validators)@,
            tx.public_key@,
            tx.nonce,
        ),
{
    let mut buf = tx.public_key.clone();
    push_u64_be(&mut buf, tx.nonce);
    let h = sha256(&buf);
    proof {
        assert(h@ == work_proof_hash(tx.public_key@, tx.nonce));
    }
    let w = crate::work::work(&h);
    if w < MIN_WORK {
        return Err(StateError::InsufficientWork);
    }
    if state.redeemed_work_hashes.contains(&h) {
        return Err(StateError::WorkReplay);
    }
    let cur: u64 = match validators.get(&tx.public_key) {
        Some(p) => p,
        None => 0,
    };
    let grant: u64 = if w > 0xffff_ffff_ffff_ffffu64 - cur {
        0xffff_ffff_ffff_ffffu64
    } else {
        cur + w
    };
    validators.insert(&tx.public_key, grant);
    state.redeemed_work_hashes.insert(&h);
    proof {
        assert(state@ =~~= StateV {
            redeemed_work_hashes: old(state)@.redeemed_work_hashes.push(h@),
            ..old(state)@
        });
    }
    Ok(())
}

/// Applies a BeginBlock: initializes the signatory history at genesis, or
/// rotates it once a whole interval has elapsed since the last snapshot.
pub fn handle_begin_block(
    state: &mut State,
    validators: &Validators,
    time_seconds: u64,
) -> (r: Result<(), StateError>)
    requires
        old(state).wf(),
        validators@.len() <= 0xffff_ffff,
    ensures
        final(state).wf(),
        (final(state)@, err_of(r)) == begin_block_step(old(state)@, validators@, time_seconds),
{
    let n = state.signatory_sets.len();
    let rotate: bool = if n == 0 {
        true
    } else {
        let last_time = state.signatory_sets[n - 1].time;
        proof {
            assert(old(state)@.signatory_sets.last().0 == last_time);
        }
        time_seconds >= last_time && time_seconds - last_time >= SIGNATORY_CHANGE_INTERVAL
    };
    if !rotate {
        return Ok(());
    }
    let set = match signatories_from_validators(validators) {
        Ok(s) => s,
        Err(e) => {
            return Err(e);
        },
    };
    let snap = SignatorySetSnapshot { time: time_seconds, signatories: set };
    let ghost oldsets = state@.signatory_sets;
    state.signatory_sets.push(snap);
    proof {
        assert(snap@ == (time_seconds, validators@));
        assert(state@.signatory_sets =~= oldsets.push((time_seconds, validators@)));
        assert(state@ =~~= StateV {
            signatory_sets: oldsets.push((time_seconds, validators@)),
            ..old(state)@
        });
        assert forall|i: int|
            0 <= i < state@.signatory_sets.len() - 1 implies (
        #[trigger] state@.signatory_sets[i].0) + SIGNATORY_CHANGE_INTERVAL
            <= state@.signatory_sets[i + 1].0 by {
            if i < oldsets.len() - 1 {
                assert(oldsets[i].0 + SIGNATORY_CHANGE_INTERVAL <= oldsets[i + 1].0);
            } else {
                assert(i == oldsets.len() - 1);
                assert(state@.signatory_sets[i] == oldsets.last());
                assert(state@.signatory_sets[i + 1].0 == time_seconds);
            }
        }
    }
    Ok(())
}

/// Forwards a batch of Bitcoin headers to the SPV store, atomically.
pub fn handle_header_tx(state: &mut State, tx: HeaderTransaction) -> (r: Result<(), StateError>)
    requires
        old(state).wf(),
    ensures
        final(state).wf(),
        (final(state)@, err_of(r)) == header_step(
            old(state)@,
            tx.block_headers@.map_values(|h: BtcHeader| h@),
        ),
{
    let r = state.headers.add_headers(&tx.block_headers);
    proof {
        let hsv = tx.block_headers@.map_values(|h: BtcHeader| h@);
        let fold = headers_extend(old(state)@.headers, hsv);
        if fold.1 {
            assert(state@ =~~= StateV { headers: fold.0, ..old(state)@ });
        } else {
            assert(state@ =~~= old(state)@);
        }
    }
    r
}

/// Rejects a checkpoint-signature submission: the handler is a placeholder.
pub fn handle_signature_tx(state: &mut State, _tx: SignatureTransaction) -> (r: Result<
    (),
    StateError,
>)
    ensures
        final(state)@ == old(state)@,
        r is Err && r->Err_0 == StateError::Unimplemented,
{
    Err(StateError::Unimplemented)
}

/// Prefixes of the history without a match shift the first matching index.
proof fn lemma_fms_skip(
    sets: Seq<(u64, Seq<(Seq<u8>, u64)>)>,
    script: Seq<u8>,
    recipient: Seq<u8>,
    k: int,
)
    requires
        0 <= k <= sets.len(),
        forall|j: int|
            0 <= j < k ==> output_script_spec((#[trigger] sets[j]).1, recipient) != script,
    ensures
        first_matching_set(sets, script, recipient) == (match first_matching_set(
            sets.skip(k),
            script,
            recipient,
        ) {
            Some(i) => Some(i + k),
            None => None::<int>,
        }),
    decreases k,
{
    if k == 0 {
        assert(sets.skip(0) =~= sets);
    } else {
        assert(sets.len() > 0);
        assert(output_script_spec(sets[0].1, recipient) != script);
        assert(sets.drop_first() =~= sets.skip(1));
        lemma_fms_skip(sets.drop_first(), script, recipient, k - 1);
        assert(sets.drop_first().skip(k - 1) =~= sets.skip(k));
        assert forall|j: int|
            0 <= j < k - 1 implies output_script_spec(
            (#[trigger] sets.drop_first()[j]).1,
            recipient,
        ) != script by {
            assert(sets.drop_first()[j] == sets[j + 1]);
        }
    }
}

/// The first signatory set, in insertion order, whose deposit script for
/// `recipient` equals `script`.
fn find_matching_set(
    sets: &Vec<SignatorySetSnapshot>,
    script: &Vec<u8>,
    recipient: &Vec<u8>,
) -> (r: Option<usize>)
    requires
        forall|i: int|
            0 <= i < sets@.len() ==> (#[trigger] sets@[i]@).1.len() <= 0xffff_ffff,
    ensures
        ({
            let fms = first_matching_set(
                sets@.map_values(|s: SignatorySetSnapshot| s@),
                script@,
                recipient@,
            );
            match r {
                Some(i) => fms == Some(i as int),
                None => fms is None,
            }
        }),
{
    let ghost setsv = sets@.map_values(|s: SignatorySetSnapshot| s@);
    let n = sets.len();
    let mut si: usize = 0;
    while si < n
        invariant
            n == setsv.len(),
            setsv == sets@.map_values(|s: SignatorySetSnapshot| s@),
            si <= n,
            forall|i: int|
                0 <= i < sets@.len() ==> (#[trigger] sets@[i]@).1.len() <= 0xffff_ffff,
            forall|j: int|
                0 <= j < si ==> output_script_spec((#[trigger] setsv[j]).1, recipient@) != script@,
        decreases n - si,
    {
        let expected = output_script(&sets[si].signatories, recipient);
        if bytes_eq(script, &expected) {
            proof {
                lemma_fms_skip(setsv, script@, recipient@, si as int);
                assert(setsv.skip(si as int).first() == setsv[si as int]);
                assert(first_matching_set(setsv.skip(si as int), script@, recipient@) == Some(
                    0int,
                ));
            }
            return Some(si);
        }
        si = si + 1;
    }
    proof {
        lemma_fms_skip(setsv, script@, recipient@, n as int);
        assert(setsv.skip(n as int).len() == 0);
    }
    None
}

/// Folding one more match credits the recipient once more and queues one
/// more UTXO.
proof fn lemma_apply_matches_push(
    accounts: Seq<(Seq<u8>, Account)>,
    utxos: Seq<UtxoV>,
    ms: Seq<(int, u64, int)>,
    x: (int, u64, int),
    txid: Seq<u8>,
    recipient: Seq<u8>,
)
    ensures
        apply_matches(accounts, utxos, ms.push(x), txid, recipient) == ({
            let (a2, u2) = apply_matches(accounts, utxos, ms, txid, recipient);
            (
                credit(a2, recipient, x.1),
                u2.push(
                    UtxoV {
                        txid: txid,
                        vout: x.2 as u32,
                        signatory_set_index: x.0 as u64,
                        data: recipient,
                    },
                ),
            )
        }),
    decreases ms.len(),
{
    if ms.len() == 0 {
        assert(ms.push(x).first() == x);
        assert(ms.push(x).drop_first() =~= ms);
        assert(apply_matches(accounts, utxos, ms, txid, recipient) == (accounts, utxos));
        let acc2 = credit(accounts, recipient, x.1);
        let ut2 = utxos.push(
            UtxoV {
                txid: txid,
                vout: x.2 as u32,
                signatory_set_index: x.0 as u64,
                data: recipient,
            },
        );
        assert(apply_matches(accounts, utxos, ms.push(x), txid, recipient) == apply_matches(
            acc2,
            ut2,
            ms,
            txid,
            recipient,
        ));
        assert(apply_matches(acc2, ut2, ms, txid, recipient) == (acc2, ut2));
    } else {
        assert(ms.push(x).first() == ms.first());
        assert(ms.push(x).drop_first() =~= ms.drop_first().push(x));
        let m = ms.first();
        let acc2 = credit(accounts, recipient, m.1);
        let ut2 = utxos.push(
            UtxoV {
                txid: txid,
                vout: m.2 as u32,
                signatory_set_index: m.0 as u64,
                data: recipient,
            },
        );
        lemma_apply_matches_push(acc2, ut2, ms.drop_first(), x, txid, recipient);
        assert(apply_matches(accounts, utxos, ms.push(x), txid, recipient) == apply_matches(
            acc2,
            ut2,
            ms.drop_first().push(x),
            txid,
            recipient,
        ));
        assert(apply_matches(accounts, utxos, ms, txid, recipient) == apply_matches(
            acc2,
            ut2,
            ms.drop_first(),
            txid,
            recipient,
        ));
    }
}

/// Applies an SPV-proved deposit: checks replay, the stored header, and the
/// merkle proof, then mints a balance and queues a UTXO for every output
/// that pays a known signatory-set script, and records the txid.
pub fn handle_deposit_tx(state: &mut State, tx: DepositTransaction) -> (r: Result<
    (),
    StateError,
>)
    requires
        old(state).wf(),
    ensures
        final(state).wf(),
        (final(state)@, err_of(r)) == deposit_step(old(state)@, tx@),
{
    let ghost d = tx@;
    let txid = compute_txid(&tx.tx);
    if state.processed_deposit_txids.contains(&txid) {
        return Err(StateError::AlreadyProcessed);
    }
    let root: Vec<u8> = match state.headers.get_header_for_height(tx.height) {
        None => {
            return Err(StateError::HeaderMissing);
        },
        Some(h) => h.merkle_root.clone(),
    };
    proof {
        assert(root@ == old(state)@.headers.headers[d.height - old(state)@.headers.base].merkle_root);
    }
    let (proof_root, matches_list) = match extract_proof(&tx.proof) {
        None => {
            return Err(StateError::MerkleMismatch);
        },
        Some(e) => e,
    };
    let ghost extracted = d.extract->Some_0;
    proof {
        assert(extracted.0 == proof_root@);
        assert(extracted.1 == matches_list@.map_values(|m: (Vec<u8>, u32)| (m.0@, m.1)));
    }
    if !bytes_eq(&proof_root, &root) {
        proof {
            assert(extracted.0 != root@);
        }
        return Err(StateError::MerkleMismatch);
    }
    if matches_list.len() != 1 {
        proof {
            assert(extracted.1.len() != 1);
            assert(extracted.1 != seq![(d.txid, d.block_index)]);
        }
        return Err(StateError::MerkleMismatch);
    }
    if !bytes_eq(&matches_list[0].0, &txid) || matches_list[0].1 != tx.block_index {
        proof {
            assert(extracted.1[0] == (matches_list@[0].0@, matches_list@[0].1));
            assert(extracted.1 != seq![(d.txid, d.block_index)]);
        }
        return Err(StateError::MerkleMismatch);
    }
    proof {
        assert(extracted.1 =~= seq![(d.txid, d.block_index)]);
    }
    let outputs = output_values(&tx.tx);
    let ghost outsv = d.outputs;
    proof {
        assert(outsv == outputs@.map_values(|o: (u64, Vec<u8>)| (o.0, o.1@)));
    }
    if outputs.len() > 0 && tx.recipients.len() == 0 {
        return Err(StateError::RecipientsExhausted);
    }
    if outputs.len() > 0 && tx.recipients[0].len() != 33 {
        proof {
            assert(d.recipients.first().len() != 33);
        }
        return Err(StateError::BadRecipient);
    }
    let ghost recipientv = if d.recipients.len() > 0 {
        d.recipients.first()
    } else {
        Seq::<u8>::empty()
    };
    let empty_recipient: Vec<u8> = Vec::new();
    let r0: &Vec<u8> = if tx.recipients.len() > 0 {
        &tx.recipients[0]
    } else {
        &empty_recipient
    };
    proof {
        assert(r0@ == recipientv);
    }
    // first pass: find every output that pays a known signatory-set script
    let mut found: Vec<(usize, u64, usize)> = Vec::new();
    let nout = outputs.len();
    let mut i: usize = 0;
    proof {
        assert(found@.map_values(|m: (usize, u64, usize)| (m.0 as int, m.1, m.2 as int))
            =~= Seq::<(int, u64, int)>::empty());
    }
    while i < nout
        invariant
            nout == outsv.len(),
            outsv == outputs@.map_values(|o: (u64, Vec<u8>)| (o.0, o.1@)),
            i <= nout,
            state@ == old(state)@,
            r0@ == recipientv,
            forall|k: int|
                0 <= k < old(state)@.signatory_sets.len() ==> (#[trigger] old(
                    state,
                )@.signatory_sets[k]).1.len() <= 0xffff_ffff,
            deposit_matches_from(old(state)@.signatory_sets, outsv, recipientv, 0)
                == found@.map_values(|m: (usize, u64, usize)| (m.0 as int, m.1, m.2 as int))
                + deposit_matches_from(old(state)@.signatory_sets, outsv, recipientv, i as int),
        decreases nout - i,
    {
        let ghost cm = found@.map_values(|m: (usize, u64, usize)| (m.0 as int, m.1, m.2 as int));
        let script = &outputs[i].1;
        proof {
            assert(outsv[i as int] == (outputs@[i as int].0, outputs@[i as int].1@));
        }
        proof {
            assert forall|k: int|
                0 <= k < state.signatory_sets@.len() implies (
            #[trigger] state.signatory_sets@[k]@).1.len() <= 0xffff_ffff by {
                assert(state@.signatory_sets[k] == state.signatory_sets@[k]@);
            }
        }
        match find_matching_set(&state.signatory_sets, script, r0) {
            Some(si) => {
                found.push((si, outputs[i].0, i));
                proof {
                    let x = (si as int, outputs@[i as int].0, i as int);
                    assert(found@.map_values(
                        |m: (usize, u64, usize)| (m.0 as int, m.1, m.2 as int),
                    ) =~= cm.push(x));
                    assert(deposit_matches_from(
                        old(state)@.signatory_sets,
                        outsv,
                        recipientv,
                        i as int,
                    ) == seq![x] + deposit_matches_from(
                        old(state)@.signatory_sets,
                        outsv,
                        recipientv,
                        i as int + 1,
                    ));
                    assert(cm + (seq![x] + deposit_matches_from(
                        old(state)@.signatory_sets,
                        outsv,
                        recipientv,
                        i as int + 1,
                    )) =~= cm.push(x) + deposit_matches_from(
                        old(state)@.signatory_sets,
                        outsv,
                        recipientv,
                        i as int + 1,
                    ));
                }
            },
            None => {
                proof {
                    assert(deposit_matches_from(
                        old(state)@.signatory_sets,
                        outsv,
                        recipientv,
                        i as int,
                    ) == deposit_matches_from(
                        old(state)@.signatory_sets,
                        outsv,
                        recipientv,
                        i as int + 1,
                    ));
                }
            },
        }
        i = i + 1;
    }
    let ghost cm = found@.map_values(|m: (usize, u64, usize)| (m.0 as int, m.1, m.2 as int));
    proof {
        assert(deposit_matches_from(old(state)@.signatory_sets, outsv, recipientv, nout as int)
            =~= Seq::<(int, u64, int)>::empty());
        assert(cm + Seq::<(int, u64, int)>::empty() =~= cm);
        assert(deposit_matches_from(old(state)@.signatory_sets, outsv, recipientv, 0) == cm);
    }
    if found.len() == 0 {
        proof {
            assert(deposit_error(old(state)@, d) == Some(StateError::NoDepositOutputs));
        }
        return Err(StateError::NoDepositOutputs);
    }
    proof {
        assert(deposit_error(old(state)@, d) is None);
    }
    // second pass: mint the matched outputs and queue their UTXOs
    let ghost acc0 = state@.accounts;
    let ghost ut0 = state@.utxos;
    let nm = found.len();
    let mut j: usize = 0;
    proof {
        assert(cm.take(0) =~= Seq::<(int, u64, int)>::empty());
    }
    while j < nm
        invariant
            nm == found@.len(),
            cm == found@.map_values(|m: (usize, u64, usize)| (m.0 as int, m.1, m.2 as int)),
            cm.len() == nm,
            j <= nm,
            txid@ == d.txid,
            r0@ == recipientv,
            state.accounts.wf(),
            (state@.accounts, state@.utxos) == apply_matches(
                acc0,
                ut0,
                cm.take(j as int),
                d.txid,
                recipientv,
            ),
            state@.redeemed_work_hashes == old(state)@.redeemed_work_hashes,
            state@.signatory_sets == old(state)@.signatory_sets,
            state@.processed_deposit_txids == old(state)@.processed_deposit_txids,
            state@.pending_withdrawals == old(state)@.pending_withdrawals,
            state@.headers == old(state)@.headers,
            state@.finalized_checkpoint == old(state)@.finalized_checkpoint,
            state@.active_checkpoint == old(state)@.active_checkpoint,
            old(state).wf(),
        decreases nm - j,
    {
        let m = found[j];
        credit_account(&mut state.accounts, r0, m.1);
        let utxo = Utxo {
            outpoint: Outpoint { txid: txid.clone(), vout: m.2 as u32 },
            signatory_set_index: m.0 as u64,
            data: r0.clone(),
        };
        let ghost utold = state@.utxos;
        state.utxos.push(utxo);
        j = j + 1;
        proof {
            let x = cm[j - 1];
            assert(utxo@ =~= UtxoV {
                txid: d.txid,
                vout: x.2 as u32,
                signatory_set_index: x.0 as u64,
                data: recipientv,
            });
            assert(state@.utxos =~= utold.push(utxo@));
            assert(cm.take(j - 1).push(x) =~= cm.take(j as int));
            lemma_apply_matches_push(acc0, ut0, cm.take(j - 1), x, d.txid, recipientv);
        }
    }
    proof {
        assert(cm.take(nm as int) =~= cm);
    }
    state.processed_deposit_txids.insert(&txid);
    proof {
        let (acc2, ut2) = apply_matches(acc0, ut0, cm, d.txid, recipientv);
        assert(state@ =~~= StateV {
            accounts: acc2,
            utxos: ut2,
            processed_deposit_txids: old(state)@.processed_deposit_txids.push(d.txid),
            ..old(state)@
        });
    }
    Ok(())
}


/// Main entrypoint of the peg state machine: dispatches one action to its
/// single handler. The whole action is atomic: on any error the state and
/// the validator map are left exactly as they were. The bound on the
/// validator count is a format limit: signatory counts are 32-bit in the
/// deposit script and checkpoint encodings.
#[verifier::rlimit(100)]
pub fn run(state: &mut State, action: Action, validators: &mut Validators) -> (r: Result<
    (),
    StateError,
>)
    requires
        old(state).wf(),
        old(validators).wf(),
        old(validators)@.len() <= 0xffff_ffff,
    ensures
        final(state).wf(),
        final(validators).wf(),
        (final(state)@, final(validators)@, err_of(r)) == run_step(
            old(state)@,
            old(validators)@,
            action@,
        ),
{
    match action {
        Action::BeginBlock { time_seconds } => handle_begin_block(state, validators, time_seconds),
        Action::Transaction(t) => match t {
            Tx::WorkProof(tx) => handle_work_proof_tx(state, validators, tx),
            Tx::Header(tx) => handle_header_tx(state, tx),
            Tx::Deposit(tx) => handle_deposit_tx(state, tx),
            Tx::Transfer(tx) => handle_transfer_tx(state, tx),
            Tx::Withdrawal(tx) => handle_withdrawal_tx(state, tx),
            Tx::Signature(tx) => handle_signature_tx(state, tx),
        },
    }
}

/// The height the hard-coded trust anchor sits at.
pub const CHECKPOINT_HEIGHT: u32 = 1863000;

/// The model of the hard-coded checkpoint header: the SPV trust anchor all
/// deposits build on.
pub open spec fn checkpoint_header_v() -> HeaderV {
    HeaderV {
        version: 0x20000000u32,
        prev_blockhash: Seq::new(32, |i: int| 0u8),
        merkle_root: Seq::new(32, |i: int| 0x4au8),
        time: 1579000000u32,
        bits: 0x1a00ffffu32,
        nonce: 0u32,
    }
}

/// The hard-coded checkpoint header and its height. The field values here
/// are fixed placeholders standing in for a deployment's real trust anchor;
/// a node supplies its own anchor through its configuration instead.
pub fn get_checkpoint_header() -> (r: EnrichedHeader)
    ensures
        r.height == CHECKPOINT_HEIGHT,
        r.header@ == checkpoint_header_v(),
{
    let mut prev: Vec<u8> = Vec::new();
    let mut merkle: Vec<u8> = Vec::new();
    let mut i: usize = 0;
    while i < 32
        invariant
            i <= 32,
            prev@.len() == i,
            merkle@.len() == i,
            forall|j: int| 0 <= j < i ==> prev@[j] == 0u8,
            forall|j: int| 0 <= j < i ==> merkle@[j] == 0x4au8,
        decreases 32 - i,
    {
        prev.push(0u8);
        merkle.push(0x4au8);
        i = i + 1;
    }
    let header = BtcHeader {
        version: 0x20000000,
        prev_blockhash: prev,
        merkle_root: merkle,
        time: 1579000000,
        bits: 0x1a00ffff,
        nonce: 0,
    };
    proof {
        assert(header@.prev_blockhash =~= checkpoint_header_v().prev_blockhash);
        assert(header@.merkle_root =~= checkpoint_header_v().merkle_root);
        assert(header@ =~= checkpoint_header_v());
    }
    EnrichedHeader { header, height: CHECKPOINT_HEIGHT }
}

/// Called once at genesis: loads the hard-coded checkpoint header into the
/// SPV store at its declared height.
pub fn initialize(state: &mut State) -> (r: Result<(), StateError>)
    requires
        old(state).wf(),
    ensures
        final(state).wf(),
        r is Ok <==> raw_accepted(old(state)@.headers, CHECKPOINT_HEIGHT),
        r is Ok ==> final(state)@.headers.headers == old(state)@.headers.headers.push(
            checkpoint_header_v(),
        ),
        r is Ok ==> final(state)@.headers.base == (if old(state)@.headers.headers.len() == 0 {
            CHECKPOINT_HEIGHT
        } else {
            old(state)@.headers.base
        }),
        final(state)@ == (StateV { headers: final(state)@.headers, ..old(state)@ }),
        r is Err ==> final(state)@ == old(state)@,
{
    let checkpoint = get_checkpoint_header();
    let r = state.headers.add_header_raw(checkpoint.header, checkpoint.height);
    proof {
        assert(state@ =~~= StateV { headers: state@.headers, ..old(state)@ });
    }
    r
}

} // verus!
