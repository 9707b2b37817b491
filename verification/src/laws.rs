use vstd::prelude::*;

use crate::account::{Account, amap_find, amap_index, amap_wf, sum_balances, lemma_amap_find_push,
    lemma_amap_find_update, lemma_amap_index_props, lemma_amap_wf_update, lemma_sum_push,
    lemma_sum_update};
use crate::error::StateError;
use crate::state_machine::{ActionV, StateV, TransferTxV, WithdrawalTxV, DepositTxV, credit,
    transfer_step, withdrawal_step, work_proof_step, begin_block_step, deposit_step,
    deposit_error, deposit_matches_from, apply_matches, run_step, cadence_ok, UtxoV,
    SIGNATORY_CHANGE_INTERVAL};

verus! {

/// Atomicity: a rejected action leaves the state and the validator map
/// exactly as they were.
pub proof fn lemma_atomicity(s: StateV, v: Seq<(Seq<u8>, u64)>, a: ActionV)
    requires
        run_step(s, v, a).2 is Some,
    ensures
        run_step(s, v, a).0 == s,
        run_step(s, v, a).1 == v,
{
}

/// Updating one account and then touching a different address leaves the
/// first account's entry where the update put it.
proof fn lemma_credit_preserves(
    accounts: Seq<(Seq<u8>, Account)>,
    addr: Seq<u8>,
    value: u64,
    q: Seq<u8>,
)
    requires
        amap_wf(accounts),
        q != addr,
    ensures
        amap_find(credit(accounts, addr, value), q) == amap_find(accounts, q),
{
    if amap_find(accounts, addr) is Some {
        let acct = amap_find(accounts, addr)->Some_0;
        let newbal = if acct.balance + value > 0xffff_ffff_ffff_ffff {
            0xffff_ffff_ffff_ffffu64
        } else {
            (acct.balance + value) as u64
        };
        lemma_amap_find_update(accounts, addr, Account { balance: newbal, nonce: acct.nonce }, q);
    } else {
        lemma_amap_find_push(accounts, addr, Account { balance: value, nonce: 0 }, q);
    }
}

/// The credited account afterwards holds the saturated sum.
proof fn lemma_credit_target(accounts: Seq<(Seq<u8>, Account)>, addr: Seq<u8>, value: u64)
    requires
        amap_wf(accounts),
    ensures
        amap_find(credit(accounts, addr, value), addr) is Some,
        ({
            let before = match amap_find(accounts, addr) {
                Some(a) => a,
                None => Account { balance: 0, nonce: 0 },
            };
            let after = amap_find(credit(accounts, addr, value), addr)->Some_0;
            &&& after.nonce == before.nonce
            &&& after.balance == if before.balance + value > 0xffff_ffff_ffff_ffff {
                0xffff_ffff_ffff_ffffu64
            } else {
                (before.balance + value) as u64
            }
        }),
{
    let before = match amap_find(accounts, addr) {
        Some(a) => a,
        None => Account { balance: 0, nonce: 0 },
    };
    let newbal = if before.balance + value > 0xffff_ffff_ffff_ffff {
        0xffff_ffff_ffff_ffffu64
    } else {
        (before.balance + value) as u64
    };
    let updated = Account { balance: newbal, nonce: before.nonce };
    if amap_find(accounts, addr) is Some {
        lemma_amap_find_update(accounts, addr, updated, addr);
    } else {
        lemma_amap_find_push(accounts, addr, updated, addr);
    }
}

/// Nonce monotonicity, transfers: a successful transfer steps the sender's
/// nonce by exactly one; an exhausted nonce is refused, so the step never
/// wraps.
pub proof fn lemma_transfer_nonce(s: StateV, tx: TransferTxV)
    requires
        amap_wf(s.accounts),
        transfer_step(s, tx).1 is None,
    ensures
        amap_find(transfer_step(s, tx).0.accounts, tx.from) is Some,
        amap_find(transfer_step(s, tx).0.accounts, tx.from)->Some_0.nonce == amap_find(
            s.accounts,
            tx.from,
        )->Some_0.nonce + 1,
{
    let sender = amap_find(s.accounts, tx.from)->Some_0;
    let debited = Account {
        balance: (sender.balance - tx.amount - tx.fee_amount) as u64,
        nonce: (sender.nonce + 1) as u64,
    };
    lemma_amap_index_props(s.accounts, tx.from);
    let mid = s.accounts.update(amap_index(s.accounts, tx.from), (tx.from, debited));
    lemma_amap_find_update(s.accounts, tx.from, debited, tx.from);
    lemma_amap_wf_update(s.accounts, amap_index(s.accounts, tx.from), (tx.from, debited));
    lemma_credit_preserves(mid, tx.to, tx.amount, tx.from);
}

/// Nonce monotonicity, withdrawals: a successful withdrawal steps the
/// sender's nonce by exactly one.
pub proof fn lemma_withdrawal_nonce(s: StateV, tx: WithdrawalTxV)
    requires
        amap_wf(s.accounts),
        withdrawal_step(s, tx).1 is None,
    ensures
        amap_find(withdrawal_step(s, tx).0.accounts, tx.from) is Some,
        amap_find(withdrawal_step(s, tx).0.accounts, tx.from)->Some_0.nonce == amap_find(
            s.accounts,
            tx.from,
        )->Some_0.nonce + 1,
{
    let sender = amap_find(s.accounts, tx.from)->Some_0;
    let debited = Account {
        balance: (sender.balance - tx.amount) as u64,
        nonce: (sender.nonce + 1) as u64,
    };
    lemma_amap_index_props(s.accounts, tx.from);
    lemma_amap_find_update(s.accounts, tx.from, debited, tx.from);
}

/// Conservation under transfer: the sender loses amount and fee, the
/// recipient gains the amount, and the total supply shrinks by exactly the
/// burned fee; every other account is untouched.
pub proof fn lemma_transfer_conservation(s: StateV, tx: TransferTxV)
    requires
        amap_wf(s.accounts),
        transfer_step(s, tx).1 is None,
        ({
            let to_balance = match amap_find(s.accounts, tx.to) {
                Some(a) => a.balance,
                None => 0u64,
            };
            to_balance + tx.amount <= 0xffff_ffff_ffff_ffff
        }),
    ensures
        sum_balances(transfer_step(s, tx).0.accounts) + tx.fee_amount == sum_balances(s.accounts),
        amap_find(transfer_step(s, tx).0.accounts, tx.from)->Some_0.balance == amap_find(
            s.accounts,
            tx.from,
        )->Some_0.balance - tx.amount - tx.fee_amount,
        amap_find(transfer_step(s, tx).0.accounts, tx.to)->Some_0.balance == (match amap_find(
            s.accounts,
            tx.to,
        ) {
            Some(a) => a.balance,
            None => 0u64,
        }) + tx.amount,
        forall|q: Seq<u8>|
            q != tx.from && q != tx.to ==> amap_find(transfer_step(s, tx).0.accounts, q)
                == amap_find(s.accounts, q),
{
    let sender = amap_find(s.accounts, tx.from)->Some_0;
    let debited = Account {
        balance: (sender.balance - tx.amount - tx.fee_amount) as u64,
        nonce: (sender.nonce + 1) as u64,
    };
    lemma_amap_index_props(s.accounts, tx.from);
    let idx = amap_index(s.accounts, tx.from);
    let mid = s.accounts.update(idx, (tx.from, debited));
    lemma_sum_update(s.accounts, idx, (tx.from, debited));
    lemma_amap_wf_update(s.accounts, idx, (tx.from, debited));
    lemma_amap_find_update(s.accounts, tx.from, debited, tx.to);
    lemma_amap_find_update(s.accounts, tx.from, debited, tx.from);
    let to_before = match amap_find(mid, tx.to) {
        Some(a) => a,
        None => Account { balance: 0, nonce: 0 },
    };
    let newbal = (to_before.balance + tx.amount) as u64;
    let credited = Account { balance: newbal, nonce: to_before.nonce };
    lemma_credit_target(mid, tx.to, tx.amount);
    lemma_credit_preserves(mid, tx.to, tx.amount, tx.from);
    if amap_find(mid, tx.to) is Some {
        lemma_amap_index_props(mid, tx.to);
        lemma_sum_update(mid, amap_index(mid, tx.to), (tx.to, credited));
    } else {
        lemma_sum_push(mid, (tx.to, credited));
    }
    assert forall|q: Seq<u8>| q != tx.from && q != tx.to implies amap_find(
        transfer_step(s, tx).0.accounts,
        q,
    ) == amap_find(s.accounts, q) by {
        lemma_amap_find_update(s.accounts, tx.from, debited, q);
        lemma_credit_preserves(mid, tx.to, tx.amount, q);
    }
}

/// Conservation under withdrawal: the sender's balance falls by exactly the
/// amount, and the pending queue gains exactly one record of that amount and
/// script.
pub proof fn lemma_withdrawal_conservation(s: StateV, tx: WithdrawalTxV)
    requires
        amap_wf(s.accounts),
        withdrawal_step(s, tx).1 is None,
    ensures
        amap_find(withdrawal_step(s, tx).0.accounts, tx.from)->Some_0.balance == amap_find(
            s.accounts,
            tx.from,
        )->Some_0.balance - tx.amount,
        withdrawal_step(s, tx).0.pending_withdrawals == s.pending_withdrawals.push(
            (tx.amount, tx.to),
        ),
        sum_balances(withdrawal_step(s, tx).0.accounts) + tx.amount == sum_balances(s.accounts),
{
    let sender = amap_find(s.accounts, tx.from)->Some_0;
    let debited = Account {
        balance: (sender.balance - tx.amount) as u64,
        nonce: (sender.nonce + 1) as u64,
    };
    lemma_amap_index_props(s.accounts, tx.from);
    lemma_amap_find_update(s.accounts, tx.from, debited, tx.from);
    lemma_sum_update(s.accounts, amap_index(s.accounts, tx.from), (tx.from, debited));
}

/// The total value of a run of matched deposit outputs.
pub open spec fn matches_total(ms: Seq<(int, u64, int)>) -> int
    decreases ms.len(),
{
    if ms.len() == 0 {
        0
    } else {
        ms.first().1 + matches_total(ms.drop_first())
    }
}

/// A total of unsigned values is never negative.
proof fn lemma_matches_total_nonneg(ms: Seq<(int, u64, int)>)
    ensures
        matches_total(ms) >= 0,
    decreases ms.len(),
{
    if ms.len() > 0 {
        lemma_matches_total_nonneg(ms.drop_first());
    }
}

/// A stored balance never exceeds the total supply.
proof fn lemma_balance_le_sum(accounts: Seq<(Seq<u8>, Account)>, q: Seq<u8>)
    requires
        amap_find(accounts, q) is Some,
    ensures
        amap_find(accounts, q)->Some_0.balance <= sum_balances(accounts),
    decreases accounts.len(),
{
    if accounts.first().0 != q {
        lemma_balance_le_sum(accounts.drop_first(), q);
    }
}

/// Folding matched outputs raises the supply by exactly their total value
/// and queues exactly one UTXO per match, as long as the total fits.
proof fn lemma_apply_matches_conservation(
    accounts: Seq<(Seq<u8>, Account)>,
    utxos: Seq<UtxoV>,
    ms: Seq<(int, u64, int)>,
    txid: Seq<u8>,
    recipient: Seq<u8>,
)
    requires
        amap_wf(accounts),
        sum_balances(accounts) + matches_total(ms) <= 0xffff_ffff_ffff_ffff,
    ensures
        amap_wf(apply_matches(accounts, utxos, ms, txid, recipient).0),
        sum_balances(apply_matches(accounts, utxos, ms, txid, recipient).0) == sum_balances(
            accounts,
        ) + matches_total(ms),
        apply_matches(accounts, utxos, ms, txid, recipient).1.len() == utxos.len() + ms.len(),
    decreases ms.len(),
{
    if ms.len() > 0 {
        let m = ms.first();
        let before = match amap_find(accounts, recipient) {
            Some(a) => a,
            None => Account { balance: 0, nonce: 0 },
        };
        if amap_find(accounts, recipient) is Some {
            lemma_balance_le_sum(accounts, recipient);
        }
        lemma_matches_total_nonneg(ms.drop_first());
        assert(before.balance + m.1 <= 0xffff_ffff_ffff_ffff);
        let credited = Account { balance: (before.balance + m.1) as u64, nonce: before.nonce };
        let acc2 = credit(accounts, recipient, m.1);
        if amap_find(accounts, recipient) is Some {
            lemma_amap_index_props(accounts, recipient);
            lemma_sum_update(accounts, amap_index(accounts, recipient), (recipient, credited));
            lemma_amap_wf_update(
                accounts,
                amap_index(accounts, recipient),
                (recipient, credited),
            );
        } else {
            lemma_sum_push(accounts, (recipient, credited));
            crate::account::lemma_amap_find_none_not_contains(accounts, recipient);
            assert forall|x: int, y: int| 0 <= x < y < acc2.len() implies acc2[x].0
                != acc2[y].0 by {
                if y < accounts.len() {
                } else {
                    assert(acc2[y].0 == recipient);
                    assert(acc2[x] == accounts[x]);
                }
            }
        }
        let ut2 = utxos.push(
            UtxoV {
                txid: txid,
                vout: m.2 as u32,
                signatory_set_index: m.0 as u64,
                data: recipient,
            },
        );
        lemma_apply_matches_conservation(acc2, ut2, ms.drop_first(), txid, recipient);
    }
}

/// Conservation under deposit: the supply rises by exactly the sum of the
/// matched output values and the UTXO queue by their number, as long as the
/// total fits in 64 bits.
pub proof fn lemma_deposit_conservation(s: StateV, d: DepositTxV)
    requires
        amap_wf(s.accounts),
        deposit_step(s, d).1 is None,
        sum_balances(s.accounts) + matches_total(
            deposit_matches_from(s.signatory_sets, d.outputs, d.recipients.first(), 0),
        ) <= 0xffff_ffff_ffff_ffff,
    ensures
        sum_balances(deposit_step(s, d).0.accounts) == sum_balances(s.accounts) + matches_total(
            deposit_matches_from(s.signatory_sets, d.outputs, d.recipients.first(), 0),
        ),
        deposit_step(s, d).0.utxos.len() == s.utxos.len() + deposit_matches_from(
            s.signatory_sets,
            d.outputs,
            d.recipients.first(),
            0,
        ).len(),
{
    let ms = deposit_matches_from(s.signatory_sets, d.outputs, d.recipients.first(), 0);
    assert(d.recipients.len() > 0) by {
        if d.recipients.len() == 0 {
            assert(deposit_matches_from(s.signatory_sets, d.outputs, Seq::empty(), 0).len() > 0);
            assert(d.outputs.len() > 0);
        }
    }
    lemma_apply_matches_conservation(s.accounts, s.utxos, ms, d.txid, d.recipients.first());
}

/// Replay protection, deposits: a deposit whose txid was already processed
/// is rejected, and in particular resubmitting a successful deposit fails.
pub proof fn lemma_deposit_replay(s: StateV, d: DepositTxV)
    requires
        deposit_step(s, d).1 is None,
    ensures
        deposit_step(deposit_step(s, d).0, d).1 == Some(StateError::AlreadyProcessed),
{
    if deposit_error(s, d) is Some {
        assert(false);
    }
    let s2 = deposit_step(s, d).0;
    assert(s2.processed_deposit_txids == s.processed_deposit_txids.push(d.txid));
    assert(s2.processed_deposit_txids[s.processed_deposit_txids.len() as int] == d.txid);
    assert(s2.processed_deposit_txids.contains(d.txid));
}

/// Replay protection, work proofs: a proof whose hash was already redeemed
/// is rejected, and in particular resubmitting a successful proof fails.
pub proof fn lemma_work_replay(s: StateV, v: Seq<(Seq<u8>, u64)>, public_key: Seq<u8>, nonce: u64)
    requires
        work_proof_step(s, v, public_key, nonce).2 is None,
    ensures
        work_proof_step(
            work_proof_step(s, v, public_key, nonce).0,
            work_proof_step(s, v, public_key, nonce).1,
            public_key,
            nonce,
        ).2 == Some(StateError::WorkReplay),
{
    let h = crate::state_machine::work_proof_hash(public_key, nonce);
    let w = crate::work::work_nat(crate::bytes::be_bytes_nat(h));
    if w < crate::state_machine::MIN_WORK || s.redeemed_work_hashes.contains(h) {
        assert(false);
    }
    let s2 = work_proof_step(s, v, public_key, nonce).0;
    assert(s2.redeemed_work_hashes == s.redeemed_work_hashes.push(h));
    assert(s2.redeemed_work_hashes[s.redeemed_work_hashes.len() as int] == h);
    assert(s2.redeemed_work_hashes.contains(h));
}

/// Signatory rotation cadence: every action preserves the invariant that no
/// two consecutive snapshots are less than one rotation interval apart.
pub proof fn lemma_rotation_cadence(s: StateV, v: Seq<(Seq<u8>, u64)>, a: ActionV)
    requires
        cadence_ok(s.signatory_sets),
    ensures
        cadence_ok(run_step(s, v, a).0.signatory_sets),
{
    match a {
        ActionV::BeginBlock { time_seconds } => {
            let s2 = begin_block_step(s, v, time_seconds).0;
            if s2.signatory_sets != s.signatory_sets {
                let pushed = s.signatory_sets.push((time_seconds, v));
                assert forall|i: int|
                    0 <= i < pushed.len() - 1 implies (#[trigger] pushed[i].0)
                    + SIGNATORY_CHANGE_INTERVAL <= pushed[i + 1].0 by {
                    if i < s.signatory_sets.len() - 1 {
                        assert(s.signatory_sets[i].0 + SIGNATORY_CHANGE_INTERVAL
                            <= s.signatory_sets[i + 1].0);
                    } else {
                        assert(pushed[i] == s.signatory_sets.last());
                        assert(pushed[i + 1].0 == time_seconds);
                    }
                }
            }
        },
        _ => {},
    }
}

/// Replays an action sequence from a starting state, committing each
/// action's outcome in order.
pub open spec fn replay(s: StateV, v: Seq<(Seq<u8>, u64)>, actions: Seq<ActionV>) -> (
    StateV,
    Seq<(Seq<u8>, u64)>,
)
    decreases actions.len(),
{
    if actions.len() == 0 {
        (s, v)
    } else {
        let (s2, v2, e) = run_step(s, v, actions.first());
        replay(s2, v2, actions.drop_first())
    }
}

/// Determinism: two replicas that start from the same genesis and apply the
/// same action sequence end in the same state with the same validator map.
/// Every transition is the pure function `run_step` of the previous state,
/// so replay is a function of the start state and the actions alone.
pub proof fn lemma_determinism(
    s1: StateV,
    v1: Seq<(Seq<u8>, u64)>,
    s2: StateV,
    v2: Seq<(Seq<u8>, u64)>,
    actions: Seq<ActionV>,
)
    requires
        s1 == s2,
        v1 == v2,
    ensures
        replay(s1, v1, actions) == replay(s2, v2, actions),
{
}

} // verus!
