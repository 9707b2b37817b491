use vstd::prelude::*;

use crate::bytes::{push_bytes, push_u32_be, push_u64_be, u32_be_bytes, u64_be_bytes};
use crate::signatory::{Signatory, SignatorySet, SignatorySetSnapshot};
use crate::state_machine::{Checkpoint, CheckpointV, Outpoint, Utxo, UtxoV, Withdrawal};

verus! {

/// The canonical encoding of one stored UTXO: the 36-byte outpoint, the
/// signatory-set index, and the length-prefixed recipient commitment.
pub open spec fn utxo_bytes(u: UtxoV) -> Seq<u8> {
    u.txid + u32_be_bytes(u.vout) + u64_be_bytes(u.signatory_set_index) + u32_be_bytes(
        u.data.len() as u32,
    ) + u.data
}

/// The encodings of a run of UTXOs, in order.
pub open spec fn utxos_bytes(us: Seq<UtxoV>) -> Seq<u8>
    decreases us.len(),
{
    if us.len() == 0 {
        Seq::empty()
    } else {
        utxo_bytes(us.first()) + utxos_bytes(us.drop_first())
    }
}

/// The canonical encoding of one pending withdrawal: its value and the
/// length-prefixed Bitcoin script.
pub open spec fn withdrawal_bytes(w: (u64, Seq<u8>)) -> Seq<u8> {
    u64_be_bytes(w.0) + u32_be_bytes(w.1.len() as u32) + w.1
}

/// The encodings of a run of withdrawals, in order.
pub open spec fn withdrawals_bytes(ws: Seq<(u64, Seq<u8>)>) -> Seq<u8>
    decreases ws.len(),
{
    if ws.len() == 0 {
        Seq::empty()
    } else {
        withdrawal_bytes(ws.first()) + withdrawals_bytes(ws.drop_first())
    }
}

/// The canonical encoding of one signatory: the length-prefixed key and its
/// voting power.
pub open spec fn signatory_bytes(s: (Seq<u8>, u64)) -> Seq<u8> {
    u32_be_bytes(s.0.len() as u32) + s.0 + u64_be_bytes(s.1)
}

/// The encodings of a run of signatories, in order.
pub open spec fn signatories_bytes(ss: Seq<(Seq<u8>, u64)>) -> Seq<u8>
    decreases ss.len(),
{
    if ss.len() == 0 {
        Seq::empty()
    } else {
        signatory_bytes(ss.first()) + signatories_bytes(ss.drop_first())
    }
}

/// The canonical encoding of a signatory-set snapshot: its time and the
/// counted signatories.
pub open spec fn snapshot_bytes(ss: (u64, Seq<(Seq<u8>, u64)>)) -> Seq<u8> {
    u64_be_bytes(ss.0) + u32_be_bytes(ss.1.len() as u32) + signatories_bytes(ss.1)
}

/// The canonical encoding of a finalized checkpoint: the counted UTXOs, the
/// counted withdrawals, and the signatory-set snapshot.
pub open spec fn checkpoint_bytes(c: CheckpointV) -> Seq<u8> {
    u32_be_bytes(c.utxos.len() as u32) + utxos_bytes(c.utxos) + u32_be_bytes(
        c.withdrawals.len() as u32,
    ) + withdrawals_bytes(c.withdrawals) + snapshot_bytes(c.signatory_set)
}

/// Every counted or length-prefixed part fits its 32-bit prefix, and txids
/// are 32 bytes.
pub open spec fn checkpoint_wf(c: CheckpointV) -> bool {
    &&& c.utxos.len() <= 0xffff_ffff
    &&& c.withdrawals.len() <= 0xffff_ffff
    &&& c.signatory_set.1.len() <= 0xffff_ffff
    &&& forall|i: int|
        0 <= i < c.utxos.len() ==> (#[trigger] c.utxos[i]).data.len() <= 0xffff_ffff
            && c.utxos[i].txid.len() == 32
    &&& forall|i: int| 0 <= i < c.withdrawals.len() ==> (#[trigger] c.withdrawals[i]).1.len()
        <= 0xffff_ffff
    &&& forall|i: int| 0 <= i < c.signatory_set.1.len() ==> (#[trigger] c.signatory_set.1[i]).0.len()
        <= 0xffff_ffff
}

/// Appending one more element extends the run's encoding at its end.
proof fn lemma_utxos_bytes_push(us: Seq<UtxoV>, u: UtxoV)
    ensures
        utxos_bytes(us.push(u)) == utxos_bytes(us) + utxo_bytes(u),
    decreases us.len(),
{
    if us.len() == 0 {
        assert(us.push(u).drop_first() =~= us);
        assert(utxos_bytes(us) + utxo_bytes(u) =~= utxo_bytes(u) + utxos_bytes(us));
    } else {
        assert(us.push(u).first() == us.first());
        assert(us.push(u).drop_first() =~= us.drop_first().push(u));
        lemma_utxos_bytes_push(us.drop_first(), u);
        assert(utxo_bytes(us.first()) + (utxos_bytes(us.drop_first()) + utxo_bytes(u)) =~= (
        utxo_bytes(us.first()) + utxos_bytes(us.drop_first())) + utxo_bytes(u));
    }
}

/// Appending one more withdrawal extends the run's encoding at its end.
proof fn lemma_withdrawals_bytes_push(ws: Seq<(u64, Seq<u8>)>, w: (u64, Seq<u8>))
    ensures
        withdrawals_bytes(ws.push(w)) == withdrawals_bytes(ws) + withdrawal_bytes(w),
    decreases ws.len(),
{
    if ws.len() == 0 {
        assert(ws.push(w).drop_first() =~= ws);
        assert(withdrawals_bytes(ws) + withdrawal_bytes(w) =~= withdrawal_bytes(w)
            + withdrawals_bytes(ws));
    } else {
        assert(ws.push(w).first() == ws.first());
        assert(ws.push(w).drop_first() =~= ws.drop_first().push(w));
        lemma_withdrawals_bytes_push(ws.drop_first(), w);
        assert(withdrawal_bytes(ws.first()) + (withdrawals_bytes(ws.drop_first())
            + withdrawal_bytes(w)) =~= (withdrawal_bytes(ws.first()) + withdrawals_bytes(
            ws.drop_first(),
        )) + withdrawal_bytes(w));
    }
}

/// Appending one more signatory extends the run's encoding at its end.
proof fn lemma_signatories_bytes_push(ss: Seq<(Seq<u8>, u64)>, x: (Seq<u8>, u64))
    ensures
        signatories_bytes(ss.push(x)) == signatories_bytes(ss) + signatory_bytes(x),
    decreases ss.len(),
{
    if ss.len() == 0 {
        assert(ss.push(x).drop_first() =~= ss);
        assert(signatories_bytes(ss) + signatory_bytes(x) =~= signatory_bytes(x)
            + signatories_bytes(ss));
    } else {
        assert(ss.push(x).first() == ss.first());
        assert(ss.push(x).drop_first() =~= ss.drop_first().push(x));
        lemma_signatories_bytes_push(ss.drop_first(), x);
        assert(signatory_bytes(ss.first()) + (signatories_bytes(ss.drop_first())
            + signatory_bytes(x)) =~= (signatory_bytes(ss.first()) + signatories_bytes(
            ss.drop_first(),
        )) + signatory_bytes(x));
    }
}

impl Checkpoint {
    /// Serializes the checkpoint into `dest` in the canonical encoding.
    pub fn encode_into(&self, dest: &mut Vec<u8>)
        requires
            checkpoint_wf(self@),
        ensures
            final(dest)@ == old(dest)@ + checkpoint_bytes(self@),
    {
        let ghost base = dest@;
        push_u32_be(dest, self.utxos.len() as u32);
        let nu = self.utxos.len();
        let mut i: usize = 0;
        proof {
            assert(self@.utxos.take(0) =~= Seq::<UtxoV>::empty());
            assert(dest@ =~= base + u32_be_bytes(self@.utxos.len() as u32) + utxos_bytes(
                self@.utxos.take(0),
            ));
        }
        while i < nu
            invariant
                checkpoint_wf(self@),
                nu == self@.utxos.len(),
                i <= nu,
                dest@ == base + u32_be_bytes(self@.utxos.len() as u32) + utxos_bytes(
                    self@.utxos.take(i as int),
                ),
            decreases nu - i,
        {
            let u = &self.utxos[i];
            push_bytes(dest, &u.outpoint.txid);
            push_u32_be(dest, u.outpoint.vout);
            push_u64_be(dest, u.signatory_set_index);
            push_u32_be(dest, u.data.len() as u32);
            push_bytes(dest, &u.data);
            i = i + 1;
            proof {
                lemma_utxos_bytes_push(self@.utxos.take(i - 1), self@.utxos[i - 1]);
                assert(self@.utxos.take(i - 1).push(self@.utxos[i - 1]) =~= self@.utxos.take(
                    i as int,
                ));
                assert(dest@ =~= base + u32_be_bytes(self@.utxos.len() as u32) + utxos_bytes(
                    self@.utxos.take(i as int),
                ));
            }
        }
        proof {
            assert(self@.utxos.take(nu as int) =~= self@.utxos);
        }
        let ghost base2 = dest@;
        push_u32_be(dest, self.withdrawals.len() as u32);
        let nw = self.withdrawals.len();
        let mut j: usize = 0;
        proof {
            assert(self@.withdrawals.take(0) =~= Seq::<(u64, Seq<u8>)>::empty());
            assert(dest@ =~= base2 + u32_be_bytes(self@.withdrawals.len() as u32)
                + withdrawals_bytes(self@.withdrawals.take(0)));
        }
        while j < nw
            invariant
                checkpoint_wf(self@),
                nw == self@.withdrawals.len(),
                j <= nw,
                dest@ == base2 + u32_be_bytes(self@.withdrawals.len() as u32) + withdrawals_bytes(
                    self@.withdrawals.take(j as int),
                ),
            decreases nw - j,
        {
            let w = &self.withdrawals[j];
            push_u64_be(dest, w.value);
            push_u32_be(dest, w.script.len() as u32);
            push_bytes(dest, &w.script);
            j = j + 1;
            proof {
                lemma_withdrawals_bytes_push(
                    self@.withdrawals.take(j - 1),
                    self@.withdrawals[j - 1],
                );
                assert(self@.withdrawals.take(j - 1).push(self@.withdrawals[j - 1])
                    =~= self@.withdrawals.take(j as int));
                assert(dest@ =~= base2 + u32_be_bytes(self@.withdrawals.len() as u32)
                    + withdrawals_bytes(self@.withdrawals.take(j as int)));
            }
        }
        proof {
            assert(self@.withdrawals.take(nw as int) =~= self@.withdrawals);
        }
        let ghost base3 = dest@;
        push_u64_be(dest, self.signatory_set.time);
        push_u32_be(dest, self.signatory_set.signatories.signatories.len() as u32);
        let ns = self.signatory_set.signatories.signatories.len();
        let mut k: usize = 0;
        proof {
            assert(self@.signatory_set.1.take(0) =~= Seq::<(Seq<u8>, u64)>::empty());
            assert(dest@ =~= base3 + u64_be_bytes(self@.signatory_set.0) + u32_be_bytes(
                self@.signatory_set.1.len() as u32,
            ) + signatories_bytes(self@.signatory_set.1.take(0)));
        }
        while k < ns
            invariant
                checkpoint_wf(self@),
                ns == self@.signatory_set.1.len(),
                ns == self.signatory_set.signatories.signatories@.len(),
                k <= ns,
                dest@ == base3 + u64_be_bytes(self@.signatory_set.0) + u32_be_bytes(
                    self@.signatory_set.1.len() as u32,
                ) + signatories_bytes(self@.signatory_set.1.take(k as int)),
            decreases ns - k,
        {
            let sig = &self.signatory_set.signatories.signatories[k];
            proof {
                assert(sig@ == self@.signatory_set.1[k as int]);
            }
            push_u32_be(dest, sig.pubkey.len() as u32);
            push_bytes(dest, &sig.pubkey);
            push_u64_be(dest, sig.voting_power);
            k = k + 1;
            proof {
                lemma_signatories_bytes_push(
                    self@.signatory_set.1.take(k - 1),
                    self@.signatory_set.1[k - 1],
                );
                assert(self@.signatory_set.1.take(k - 1).push(self@.signatory_set.1[k - 1])
                    =~= self@.signatory_set.1.take(k as int));
                assert(dest@ =~= base3 + u64_be_bytes(self@.signatory_set.0) + u32_be_bytes(
                    self@.signatory_set.1.len() as u32,
                ) + signatories_bytes(self@.signatory_set.1.take(k as int)));
            }
        }
        proof {
            assert(self@.signatory_set.1.take(ns as int) =~= self@.signatory_set.1);
            assert(dest@ =~= base + checkpoint_bytes(self@));
        }
    }

    /// How many bytes the canonical encoding takes.
    pub fn encoding_length(&self) -> (r: usize)
        requires
            checkpoint_wf(self@),
        ensures
            r == checkpoint_bytes(self@).len(),
    {
        let mut buf: Vec<u8> = Vec::new();
        self.encode_into(&mut buf);
        buf.len()
    }
}



/// Parses the big-endian 32-bit integer at `pos`: the value and the position
/// after it, or `None` where fewer than four bytes remain.
pub open spec fn sp_u32(b: Seq<u8>, pos: int) -> Option<(u32, int)> {
    if 0 <= pos && pos + 4 <= b.len() {
        Some(
            (
                ((b[pos] as u32) << 24) | ((b[pos + 1] as u32) << 16) | ((b[pos + 2] as u32) << 8)
                    | (b[pos + 3] as u32),
                pos + 4,
            ),
        )
    } else {
        None
    }
}

/// Parses the big-endian 64-bit integer at `pos`.
pub open spec fn sp_u64(b: Seq<u8>, pos: int) -> Option<(u64, int)> {
    if 0 <= pos && pos + 8 <= b.len() {
        Some(
            (
                ((b[pos] as u64) << 56) | ((b[pos + 1] as u64) << 48) | ((b[pos + 2] as u64) << 40)
                    | ((b[pos + 3] as u64) << 32) | ((b[pos + 4] as u64) << 24) | ((b[pos
                    + 5] as u64) << 16) | ((b[pos + 6] as u64) << 8) | (b[pos + 7] as u64),
                pos + 8,
            ),
        )
    } else {
        None
    }
}

/// Takes `n` raw bytes at `pos`.
pub open spec fn sp_bytes(b: Seq<u8>, pos: int, n: int) -> Option<(Seq<u8>, int)> {
    if 0 <= pos && 0 <= n && pos + n <= b.len() {
        Some((b.subrange(pos, pos + n), pos + n))
    } else {
        None
    }
}

/// Parses one UTXO record: outpoint, signatory-set index, length-prefixed
/// recipient commitment.
pub open spec fn sp_utxo(b: Seq<u8>, pos: int) -> Option<(UtxoV, int)> {
    match sp_bytes(b, pos, 32) {
        None => None,
        Some((txid, p1)) => match sp_u32(b, p1) {
            None => None,
            Some((vout, p2)) => match sp_u64(b, p2) {
                None => None,
                Some((idx, p3)) => match sp_u32(b, p3) {
                    None => None,
                    Some((dlen, p4)) => match sp_bytes(b, p4, dlen as int) {
                        None => None,
                        Some((data, p5)) => Some(
                            (UtxoV { txid, vout, signatory_set_index: idx, data }, p5),
                        ),
                    },
                },
            },
        },
    }
}

/// Parses `count` UTXO records in order.
pub open spec fn sp_utxos(b: Seq<u8>, pos: int, count: nat) -> Option<(Seq<UtxoV>, int)>
    decreases count,
{
    if count == 0 {
        Some((Seq::empty(), pos))
    } else {
        match sp_utxo(b, pos) {
            None => None,
            Some((u, p)) => match sp_utxos(b, p, (count - 1) as nat) {
                None => None,
                Some((us, p2)) => Some((seq![u] + us, p2)),
            },
        }
    }
}

/// Parses one withdrawal record: value and length-prefixed script.
pub open spec fn sp_withdrawal(b: Seq<u8>, pos: int) -> Option<((u64, Seq<u8>), int)> {
    match sp_u64(b, pos) {
        None => None,
        Some((value, p1)) => match sp_u32(b, p1) {
            None => None,
            Some((slen, p2)) => match sp_bytes(b, p2, slen as int) {
                None => None,
                Some((script, p3)) => Some(((value, script), p3)),
            },
        },
    }
}

/// Parses `count` withdrawal records in order.
pub open spec fn sp_withdrawals(b: Seq<u8>, pos: int, count: nat) -> Option<
    (Seq<(u64, Seq<u8>)>, int),
>
    decreases count,
{
    if count == 0 {
        Some((Seq::empty(), pos))
    } else {
        match sp_withdrawal(b, pos) {
            None => None,
            Some((w, p)) => match sp_withdrawals(b, p, (count - 1) as nat) {
                None => None,
                Some((ws, p2)) => Some((seq![w] + ws, p2)),
            },
        }
    }
}

/// Parses one signatory record: length-prefixed key and voting power.
pub open spec fn sp_signatory(b: Seq<u8>, pos: int) -> Option<((Seq<u8>, u64), int)> {
    match sp_u32(b, pos) {
        None => None,
        Some((klen, p1)) => match sp_bytes(b, p1, klen as int) {
            None => None,
            Some((key, p2)) => match sp_u64(b, p2) {
                None => None,
                Some((power, p3)) => Some(((key, power), p3)),
            },
        },
    }
}

/// Parses `count` signatory records in order.
pub open spec fn sp_signatories(b: Seq<u8>, pos: int, count: nat) -> Option<
    (Seq<(Seq<u8>, u64)>, int),
>
    decreases count,
{
    if count == 0 {
        Some((Seq::empty(), pos))
    } else {
        match sp_signatory(b, pos) {
            None => None,
            Some((x, p)) => match sp_signatories(b, p, (count - 1) as nat) {
                None => None,
                Some((xs, p2)) => Some((seq![x] + xs, p2)),
            },
        }
    }
}

/// The parse after the UTXOs: the withdrawal count and everything behind it.
pub open spec fn parse_wcount(b: Seq<u8>, pos: int, us: Seq<UtxoV>) -> Option<CheckpointV> {
    match sp_u32(b, pos) {
        None => None,
        Some((nw, p)) => parse_withdrawals_from(b, p, us, nw as nat),
    }
}

/// The parse after the withdrawal count.
pub open spec fn parse_withdrawals_from(b: Seq<u8>, pos: int, us: Seq<UtxoV>, count: nat) -> Option<
    CheckpointV,
> {
    match sp_withdrawals(b, pos, count) {
        None => None,
        Some((ws, p)) => parse_snapshot_from(b, p, us, ws),
    }
}

/// The parse of the trailing snapshot; the whole input must be consumed.
pub open spec fn parse_snapshot_from(
    b: Seq<u8>,
    pos: int,
    us: Seq<UtxoV>,
    ws: Seq<(u64, Seq<u8>)>,
) -> Option<CheckpointV> {
    match sp_u64(b, pos) {
        None => None,
        Some((time, p1)) => match sp_u32(b, p1) {
            None => None,
            Some((ns, p2)) => match sp_signatories(b, p2, ns as nat) {
                None => None,
                Some((sigs, p3)) => if p3 == b.len() {
                    Some(CheckpointV { utxos: us, withdrawals: ws, signatory_set: (time, sigs) })
                } else {
                    None
                },
            },
        },
    }
}

/// The parse after the UTXO count.
pub open spec fn parse_utxos_from(b: Seq<u8>, pos: int, count: nat) -> Option<CheckpointV> {
    match sp_utxos(b, pos, count) {
        None => None,
        Some((us, p)) => parse_wcount(b, p, us),
    }
}

/// The canonical-checkpoint parser: the unique checkpoint a byte string
/// encodes, or `None` where it encodes none. `Checkpoint::decode` computes
/// exactly this function.
pub open spec fn parse_checkpoint(b: Seq<u8>) -> Option<CheckpointV> {
    match sp_u32(b, 0) {
        None => None,
        Some((nu, p)) => parse_utxos_from(b, p, nu as nat),
    }
}


/// A 32-bit value decomposes into exactly the four bytes it was composed of.
proof fn lemma_u32_compose(v: u32, b0: u8, b1: u8, b2: u8, b3: u8)
    requires
        v == ((b0 as u32) << 24) | ((b1 as u32) << 16) | ((b2 as u32) << 8) | (b3 as u32),
    ensures
        (v >> 24) as u8 == b0,
        (v >> 16) as u8 == b1,
        (v >> 8) as u8 == b2,
        v as u8 == b3,
{
    assert((((((b0 as u32) << 24) | ((b1 as u32) << 16) | ((b2 as u32) << 8) | (b3 as u32))
        >> 24) as u8 == b0) && (((((b0 as u32) << 24) | ((b1 as u32) << 16) | ((b2 as u32) << 8)
        | (b3 as u32)) >> 16) as u8 == b1) && (((((b0 as u32) << 24) | ((b1 as u32) << 16) | ((
    b2 as u32) << 8) | (b3 as u32)) >> 8) as u8 == b2) && ((((b0 as u32) << 24) | ((b1
        as u32) << 16) | ((b2 as u32) << 8) | (b3 as u32)) as u8 == b3)) by (bit_vector);
}

/// Composing a 32-bit value's four big-endian bytes gives the value back.
proof fn lemma_u32_decompose(v: u32)
    ensures
        v == ((((v >> 24) as u8) as u32) << 24) | ((((v >> 16) as u8) as u32) << 16) | ((((v
            >> 8) as u8) as u32) << 8) | ((v as u8) as u32),
{
    assert(v == ((((v >> 24) as u8) as u32) << 24) | ((((v >> 16) as u8) as u32) << 16) | ((((v
        >> 8) as u8) as u32) << 8) | ((v as u8) as u32)) by (bit_vector);
}

/// A 64-bit value decomposes into exactly the eight bytes it was composed of.
proof fn lemma_u64_compose(v: u64, b0: u8, b1: u8, b2: u8, b3: u8, b4: u8, b5: u8, b6: u8, b7: u8)
    requires
        v == ((b0 as u64) << 56) | ((b1 as u64) << 48) | ((b2 as u64) << 40) | ((b3 as u64) << 32)
            | ((b4 as u64) << 24) | ((b5 as u64) << 16) | ((b6 as u64) << 8) | (b7 as u64),
    ensures
        (v >> 56) as u8 == b0,
        (v >> 48) as u8 == b1,
        (v >> 40) as u8 == b2,
        (v >> 32) as u8 == b3,
        (v >> 24) as u8 == b4,
        (v >> 16) as u8 == b5,
        (v >> 8) as u8 == b6,
        v as u8 == b7,
{
    assert(((v >> 56) as u8 == b0) && ((v >> 48) as u8 == b1) && ((v >> 40) as u8 == b2) && ((v
        >> 32) as u8 == b3) && ((v >> 24) as u8 == b4) && ((v >> 16) as u8 == b5) && ((v
        >> 8) as u8 == b6) && (v as u8 == b7)) by (bit_vector)
        requires
            v == ((b0 as u64) << 56) | ((b1 as u64) << 48) | ((b2 as u64) << 40) | ((b3
                as u64) << 32) | ((b4 as u64) << 24) | ((b5 as u64) << 16) | ((b6 as u64) << 8) | (
            b7 as u64),
    ;
}

/// Composing a 64-bit value's eight big-endian bytes gives the value back.
proof fn lemma_u64_decompose(v: u64)
    ensures
        v == ((((v >> 56) as u8) as u64) << 56) | ((((v >> 48) as u8) as u64) << 48) | ((((v
            >> 40) as u8) as u64) << 40) | ((((v >> 32) as u8) as u64) << 32) | ((((v
            >> 24) as u8) as u64) << 24) | ((((v >> 16) as u8) as u64) << 16) | ((((v
            >> 8) as u8) as u64) << 8) | ((v as u8) as u64),
{
    assert(v == ((((v >> 56) as u8) as u64) << 56) | ((((v >> 48) as u8) as u64) << 48) | ((((v
        >> 40) as u8) as u64) << 40) | ((((v >> 32) as u8) as u64) << 32) | ((((v
        >> 24) as u8) as u64) << 24) | ((((v >> 16) as u8) as u64) << 16) | ((((v
        >> 8) as u8) as u64) << 8) | ((v as u8) as u64)) by (bit_vector);
}

/// A parsed 32-bit value re-encodes to exactly the four bytes it came from.
proof fn lemma_sp_u32_sound(b: Seq<u8>, pos: int)
    requires
        sp_u32(b, pos) is Some,
    ensures
        sp_u32(b, pos)->Some_0.1 == pos + 4,
        0 <= pos && pos + 4 <= b.len(),
        u32_be_bytes(sp_u32(b, pos)->Some_0.0) == b.subrange(pos, pos + 4),
{
    let v = sp_u32(b, pos)->Some_0.0;
    lemma_u32_compose(v, b[pos], b[pos + 1], b[pos + 2], b[pos + 3]);
    assert(u32_be_bytes(v) =~= b.subrange(pos, pos + 4));
}

/// The parse of a 32-bit value's encoding is that value.
proof fn lemma_sp_u32_of_be(b: Seq<u8>, pos: int, v: u32)
    requires
        0 <= pos,
        pos + 4 <= b.len(),
        b.subrange(pos, pos + 4) == u32_be_bytes(v),
    ensures
        sp_u32(b, pos) == Some((v, pos + 4)),
{
    assert(b[pos] == (v >> 24) as u8 && b[pos + 1] == (v >> 16) as u8 && b[pos + 2] == (v
        >> 8) as u8 && b[pos + 3] == v as u8) by {
        assert(b.subrange(pos, pos + 4)[0] == b[pos]);
        assert(b.subrange(pos, pos + 4)[1] == b[pos + 1]);
        assert(b.subrange(pos, pos + 4)[2] == b[pos + 2]);
        assert(b.subrange(pos, pos + 4)[3] == b[pos + 3]);
    }
    lemma_u32_decompose(v);
}

/// A parsed 64-bit value re-encodes to exactly the eight bytes it came from.
proof fn lemma_sp_u64_sound(b: Seq<u8>, pos: int)
    requires
        sp_u64(b, pos) is Some,
    ensures
        sp_u64(b, pos)->Some_0.1 == pos + 8,
        0 <= pos && pos + 8 <= b.len(),
        u64_be_bytes(sp_u64(b, pos)->Some_0.0) == b.subrange(pos, pos + 8),
{
    let v = sp_u64(b, pos)->Some_0.0;
    lemma_u64_compose(
        v,
        b[pos],
        b[pos + 1],
        b[pos + 2],
        b[pos + 3],
        b[pos + 4],
        b[pos + 5],
        b[pos + 6],
        b[pos + 7],
    );
    assert(u64_be_bytes(v) =~= b.subrange(pos, pos + 8));
}

/// The parse of a 64-bit value's encoding is that value.
proof fn lemma_sp_u64_of_be(b: Seq<u8>, pos: int, v: u64)
    requires
        0 <= pos,
        pos + 8 <= b.len(),
        b.subrange(pos, pos + 8) == u64_be_bytes(v),
    ensures
        sp_u64(b, pos) == Some((v, pos + 8)),
{
    assert(b[pos] == (v >> 56) as u8 && b[pos + 1] == (v >> 48) as u8 && b[pos + 2] == (v
        >> 40) as u8 && b[pos + 3] == (v >> 32) as u8 && b[pos + 4] == (v >> 24) as u8 && b[pos
        + 5] == (v >> 16) as u8 && b[pos + 6] == (v >> 8) as u8 && b[pos + 7] == v as u8) by {
        assert(b.subrange(pos, pos + 8)[0] == b[pos]);
        assert(b.subrange(pos, pos + 8)[1] == b[pos + 1]);
        assert(b.subrange(pos, pos + 8)[2] == b[pos + 2]);
        assert(b.subrange(pos, pos + 8)[3] == b[pos + 3]);
        assert(b.subrange(pos, pos + 8)[4] == b[pos + 4]);
        assert(b.subrange(pos, pos + 8)[5] == b[pos + 5]);
        assert(b.subrange(pos, pos + 8)[6] == b[pos + 6]);
        assert(b.subrange(pos, pos + 8)[7] == b[pos + 7]);
    }
    lemma_u64_decompose(v);
}

/// A parsed UTXO record re-encodes to exactly the bytes it came from.
proof fn lemma_sp_utxo_sound(b: Seq<u8>, pos: int)
    requires
        sp_utxo(b, pos) is Some,
    ensures
        ({
            let (u, p) = sp_utxo(b, pos)->Some_0;
            &&& 0 <= pos <= p <= b.len()
            &&& b.subrange(pos, p) == utxo_bytes(u)
            &&& u.txid.len() == 32
            &&& u.data.len() <= 0xffff_ffff
        }),
{
    let (u, p) = sp_utxo(b, pos)->Some_0;
    let p1 = pos + 32;
    let p2 = p1 + 4;
    let p3 = p2 + 8;
    let p4 = p3 + 4;
    lemma_sp_u32_sound(b, p1);
    lemma_sp_u64_sound(b, p2);
    lemma_sp_u32_sound(b, p3);
    let dlen = sp_u32(b, p3)->Some_0.0;
    assert(u.data == b.subrange(p4, p4 + dlen as int));
    assert(u.data.len() == dlen as int);
    assert(b.subrange(pos, p) =~= b.subrange(pos, p1) + b.subrange(p1, p2) + b.subrange(p2, p3)
        + b.subrange(p3, p4) + b.subrange(p4, p));
    assert(b.subrange(pos, p) =~= utxo_bytes(u));
}

/// A parsed run of UTXO records re-encodes to exactly the bytes it came from.
proof fn lemma_sp_utxos_sound(b: Seq<u8>, pos: int, count: nat)
    requires
        0 <= pos <= b.len(),
        sp_utxos(b, pos, count) is Some,
    ensures
        ({
            let (us, p) = sp_utxos(b, pos, count)->Some_0;
            &&& pos <= p <= b.len()
            &&& b.subrange(pos, p) == utxos_bytes(us)
            &&& us.len() == count
            &&& forall|i: int|
                0 <= i < us.len() ==> (#[trigger] us[i]).txid.len() == 32 && us[i].data.len()
                    <= 0xffff_ffff
        }),
    decreases count,
{
    let (us, p) = sp_utxos(b, pos, count)->Some_0;
    if count == 0 {
        assert(b.subrange(pos, pos) =~= utxos_bytes(us));
    } else {
        let (u, pmid) = sp_utxo(b, pos)->Some_0;
        lemma_sp_utxo_sound(b, pos);
        lemma_sp_utxos_sound(b, pmid, (count - 1) as nat);
        let (rest, pend) = sp_utxos(b, pmid, (count - 1) as nat)->Some_0;
        assert(us =~= seq![u] + rest);
        assert(us.first() == u);
        assert(us.drop_first() =~= rest);
        assert(b.subrange(pos, p) =~= b.subrange(pos, pmid) + b.subrange(pmid, p));
        assert(b.subrange(pos, p) =~= utxos_bytes(us));
        assert forall|i: int|
            0 <= i < us.len() implies (#[trigger] us[i]).txid.len() == 32 && us[i].data.len()
            <= 0xffff_ffff by {
            if i > 0 {
                assert(us[i] == rest[i - 1]);
            }
        }
    }
}

/// A parsed withdrawal record re-encodes to exactly the bytes it came from.
proof fn lemma_sp_withdrawal_sound(b: Seq<u8>, pos: int)
    requires
        sp_withdrawal(b, pos) is Some,
    ensures
        ({
            let (w, p) = sp_withdrawal(b, pos)->Some_0;
            &&& 0 <= pos <= p <= b.len()
            &&& b.subrange(pos, p) == withdrawal_bytes(w)
            &&& w.1.len() <= 0xffff_ffff
        }),
{
    let (w, p) = sp_withdrawal(b, pos)->Some_0;
    let p1 = pos + 8;
    let p2 = p1 + 4;
    lemma_sp_u64_sound(b, pos);
    lemma_sp_u32_sound(b, p1);
    let slen = sp_u32(b, p1)->Some_0.0;
    assert(w.1 == b.subrange(p2, p2 + slen as int));
    assert(w.1.len() == slen as int);
    assert(b.subrange(pos, p) =~= b.subrange(pos, p1) + b.subrange(p1, p2) + b.subrange(p2, p));
    assert(b.subrange(pos, p) =~= withdrawal_bytes(w));
}

/// A parsed run of withdrawals re-encodes to exactly the bytes it came from.
proof fn lemma_sp_withdrawals_sound(b: Seq<u8>, pos: int, count: nat)
    requires
        0 <= pos <= b.len(),
        sp_withdrawals(b, pos, count) is Some,
    ensures
        ({
            let (ws, p) = sp_withdrawals(b, pos, count)->Some_0;
            &&& pos <= p <= b.len()
            &&& b.subrange(pos, p) == withdrawals_bytes(ws)
            &&& ws.len() == count
            &&& forall|i: int| 0 <= i < ws.len() ==> (#[trigger] ws[i]).1.len() <= 0xffff_ffff
        }),
    decreases count,
{
    let (ws, p) = sp_withdrawals(b, pos, count)->Some_0;
    if count == 0 {
        assert(b.subrange(pos, pos) =~= withdrawals_bytes(ws));
    } else {
        let (w, pmid) = sp_withdrawal(b, pos)->Some_0;
        lemma_sp_withdrawal_sound(b, pos);
        lemma_sp_withdrawals_sound(b, pmid, (count - 1) as nat);
        let (rest, pend) = sp_withdrawals(b, pmid, (count - 1) as nat)->Some_0;
        assert(ws =~= seq![w] + rest);
        assert(ws.first() == w);
        assert(ws.drop_first() =~= rest);
        assert(b.subrange(pos, p) =~= b.subrange(pos, pmid) + b.subrange(pmid, p));
        assert(b.subrange(pos, p) =~= withdrawals_bytes(ws));
        assert forall|i: int| 0 <= i < ws.len() implies (#[trigger] ws[i]).1.len()
            <= 0xffff_ffff by {
            if i > 0 {
                assert(ws[i] == rest[i - 1]);
            }
        }
    }
}

/// A parsed signatory record re-encodes to exactly the bytes it came from.
proof fn lemma_sp_signatory_sound(b: Seq<u8>, pos: int)
    requires
        sp_signatory(b, pos) is Some,
    ensures
        ({
            let (x, p) = sp_signatory(b, pos)->Some_0;
            &&& 0 <= pos <= p <= b.len()
            &&& b.subrange(pos, p) == signatory_bytes(x)
            &&& x.0.len() <= 0xffff_ffff
        }),
{
    let (x, p) = sp_signatory(b, pos)->Some_0;
    let p1 = pos + 4;
    lemma_sp_u32_sound(b, pos);
    let klen = sp_u32(b, pos)->Some_0.0;
    let p2 = p1 + klen as int;
    lemma_sp_u64_sound(b, p2);
    assert(x.0 == b.subrange(p1, p2));
    assert(x.0.len() == klen as int);
    assert(b.subrange(pos, p) =~= b.subrange(pos, p1) + b.subrange(p1, p2) + b.subrange(p2, p));
    assert(b.subrange(pos, p) =~= signatory_bytes(x));
}

/// A parsed run of signatories re-encodes to exactly the bytes it came from.
proof fn lemma_sp_signatories_sound(b: Seq<u8>, pos: int, count: nat)
    requires
        0 <= pos <= b.len(),
        sp_signatories(b, pos, count) is Some,
    ensures
        ({
            let (xs, p) = sp_signatories(b, pos, count)->Some_0;
            &&& pos <= p <= b.len()
            &&& b.subrange(pos, p) == signatories_bytes(xs)
            &&& xs.len() == count
            &&& forall|i: int| 0 <= i < xs.len() ==> (#[trigger] xs[i]).0.len() <= 0xffff_ffff
        }),
    decreases count,
{
    let (xs, p) = sp_signatories(b, pos, count)->Some_0;
    if count == 0 {
        assert(b.subrange(pos, pos) =~= signatories_bytes(xs));
    } else {
        let (x, pmid) = sp_signatory(b, pos)->Some_0;
        lemma_sp_signatory_sound(b, pos);
        lemma_sp_signatories_sound(b, pmid, (count - 1) as nat);
        let (rest, pend) = sp_signatories(b, pmid, (count - 1) as nat)->Some_0;
        assert(xs =~= seq![x] + rest);
        assert(xs.first() == x);
        assert(xs.drop_first() =~= rest);
        assert(b.subrange(pos, p) =~= b.subrange(pos, pmid) + b.subrange(pmid, p));
        assert(b.subrange(pos, p) =~= signatories_bytes(xs));
        assert forall|i: int| 0 <= i < xs.len() implies (#[trigger] xs[i]).0.len()
            <= 0xffff_ffff by {
            if i > 0 {
                assert(xs[i] == rest[i - 1]);
            }
        }
    }
}

/// Soundness of the parser: an accepted byte string is exactly the canonical
/// encoding of the parsed checkpoint, which is well-formed.
#[verifier::rlimit(100)]
#[verifier::spinoff_prover]
pub proof fn lemma_parse_sound(b: Seq<u8>, c: CheckpointV)
    requires
        parse_checkpoint(b) == Some(c),
    ensures
        checkpoint_bytes(c) == b,
        checkpoint_wf(c),
{
    let (nu, q1) = sp_u32(b, 0)->Some_0;
    lemma_sp_u32_sound(b, 0);
    let (us, q2) = sp_utxos(b, q1, nu as nat)->Some_0;
    lemma_sp_utxos_sound(b, q1, nu as nat);
    let (nw, q3) = sp_u32(b, q2)->Some_0;
    lemma_sp_u32_sound(b, q2);
    let (ws, q4) = sp_withdrawals(b, q3, nw as nat)->Some_0;
    lemma_sp_withdrawals_sound(b, q3, nw as nat);
    let (time, q5) = sp_u64(b, q4)->Some_0;
    lemma_sp_u64_sound(b, q4);
    let (ns, q6) = sp_u32(b, q5)->Some_0;
    lemma_sp_u32_sound(b, q5);
    let (xs, q7) = sp_signatories(b, q6, ns as nat)->Some_0;
    lemma_sp_signatories_sound(b, q6, ns as nat);
    assert(q7 == b.len());
    assert(c.utxos == us && c.withdrawals == ws && c.signatory_set == (time, xs));
    assert(us.len() as u32 == nu && ws.len() as u32 == nw && xs.len() as u32 == ns);
    assert(b =~= b.subrange(0, q1) + b.subrange(q1, q2) + b.subrange(q2, q3) + b.subrange(q3, q4)
        + b.subrange(q4, q5) + b.subrange(q5, q6) + b.subrange(q6, q7));
    assert(checkpoint_bytes(c) =~= b);
}


/// Splits a known concatenation out of a byte string: the two parts sit at
/// their own offsets.
proof fn lemma_peel(b: Seq<u8>, lo: int, hi: int, x: Seq<u8>, y: Seq<u8>)
    requires
        0 <= lo <= hi <= b.len(),
        b.subrange(lo, hi) == x + y,
        hi - lo == x.len() + y.len(),
    ensures
        b.subrange(lo, lo + x.len()) == x,
        b.subrange(lo + x.len(), hi) == y,
{
    assert forall|i: int| 0 <= i < x.len() implies b.subrange(lo, lo + x.len() as int)[i]
        == x[i] by {
        assert(b.subrange(lo, hi)[i] == (x + y)[i]);
    }
    assert(b.subrange(lo, lo + x.len() as int) =~= x);
    assert forall|i: int| 0 <= i < y.len() implies b.subrange(lo + x.len() as int, hi)[i]
        == y[i] by {
        assert(b.subrange(lo + x.len() as int, hi)[i] == b[lo + x.len() + i]);
        assert(b.subrange(lo, hi)[x.len() + i] == b[lo + x.len() + i]);
        assert((x + y)[x.len() + i] == y[i]);
    }
    assert(b.subrange(lo + x.len() as int, hi) =~= y);
}

/// The parse of one UTXO record's encoding is that record.
proof fn lemma_sp_utxo_of_encoding(b: Seq<u8>, pos: int, u: UtxoV)
    requires
        0 <= pos,
        pos + utxo_bytes(u).len() <= b.len(),
        b.subrange(pos, pos + utxo_bytes(u).len()) == utxo_bytes(u),
        u.txid.len() == 32,
        u.data.len() <= 0xffff_ffff,
    ensures
        sp_utxo(b, pos) == Some((u, pos + utxo_bytes(u).len())),
{
    let e = utxo_bytes(u);
    let t2 = u32_be_bytes(u.vout);
    let t3 = u64_be_bytes(u.signatory_set_index);
    let t4 = u32_be_bytes(u.data.len() as u32);
    let p1 = pos + 32;
    let p2 = p1 + 4;
    let p3 = p2 + 8;
    let p4 = p3 + 4;
    let p5 = p4 + u.data.len();
    assert(p5 == pos + e.len());
    assert(e =~= u.txid + (t2 + (t3 + (t4 + u.data))));
    lemma_peel(b, pos, p5, u.txid, t2 + (t3 + (t4 + u.data)));
    lemma_peel(b, p1, p5, t2, t3 + (t4 + u.data));
    lemma_peel(b, p2, p5, t3, t4 + u.data);
    lemma_peel(b, p3, p5, t4, u.data);
    lemma_sp_u32_of_be(b, p1, u.vout);
    lemma_sp_u64_of_be(b, p2, u.signatory_set_index);
    lemma_sp_u32_of_be(b, p3, u.data.len() as u32);
    assert((u.data.len() as u32) as int == u.data.len());
    assert(sp_utxo(b, pos)->Some_0.0 =~= u);
}

/// The parse of a run of UTXO encodings is that run.
proof fn lemma_sp_utxos_of_encoding(b: Seq<u8>, pos: int, us: Seq<UtxoV>)
    requires
        0 <= pos,
        pos + utxos_bytes(us).len() <= b.len(),
        b.subrange(pos, pos + utxos_bytes(us).len()) == utxos_bytes(us),
        forall|i: int|
            0 <= i < us.len() ==> (#[trigger] us[i]).txid.len() == 32 && us[i].data.len()
                <= 0xffff_ffff,
    ensures
        sp_utxos(b, pos, us.len()) == Some((us, pos + utxos_bytes(us).len())),
    decreases us.len(),
{
    if us.len() == 0 {
        assert(us =~= Seq::<UtxoV>::empty());
    } else {
        let u = us.first();
        let e = utxo_bytes(u);
        let rest = us.drop_first();
        let pmid = pos + e.len();
        let pend = pos + utxos_bytes(us).len();
        assert(utxos_bytes(us) == e + utxos_bytes(rest));
        lemma_peel(b, pos, pend, e, utxos_bytes(rest));
        lemma_sp_utxo_of_encoding(b, pos, u);
        assert forall|i: int|
            0 <= i < rest.len() implies (#[trigger] rest[i]).txid.len() == 32 && rest[i].data.len()
            <= 0xffff_ffff by {
            assert(rest[i] == us[i + 1]);
        }
        lemma_sp_utxos_of_encoding(b, pmid, rest);
        assert(seq![u] + rest =~= us);
    }
}

/// The parse of one withdrawal record's encoding is that record.
proof fn lemma_sp_withdrawal_of_encoding(b: Seq<u8>, pos: int, w: (u64, Seq<u8>))
    requires
        0 <= pos,
        pos + withdrawal_bytes(w).len() <= b.len(),
        b.subrange(pos, pos + withdrawal_bytes(w).len()) == withdrawal_bytes(w),
        w.1.len() <= 0xffff_ffff,
    ensures
        sp_withdrawal(b, pos) == Some((w, pos + withdrawal_bytes(w).len())),
{
    let e = withdrawal_bytes(w);
    let t1 = u64_be_bytes(w.0);
    let t2 = u32_be_bytes(w.1.len() as u32);
    let p1 = pos + 8;
    let p2 = p1 + 4;
    let p3 = p2 + w.1.len();
    assert(p3 == pos + e.len());
    assert(e =~= t1 + (t2 + w.1));
    lemma_peel(b, pos, p3, t1, t2 + w.1);
    lemma_peel(b, p1, p3, t2, w.1);
    lemma_sp_u64_of_be(b, pos, w.0);
    lemma_sp_u32_of_be(b, p1, w.1.len() as u32);
    assert((w.1.len() as u32) as int == w.1.len());
}

/// The parse of a run of withdrawal encodings is that run.
proof fn lemma_sp_withdrawals_of_encoding(b: Seq<u8>, pos: int, ws: Seq<(u64, Seq<u8>)>)
    requires
        0 <= pos,
        pos + withdrawals_bytes(ws).len() <= b.len(),
        b.subrange(pos, pos + withdrawals_bytes(ws).len()) == withdrawals_bytes(ws),
        forall|i: int| 0 <= i < ws.len() ==> (#[trigger] ws[i]).1.len() <= 0xffff_ffff,
    ensures
        sp_withdrawals(b, pos, ws.len()) == Some((ws, pos + withdrawals_bytes(ws).len())),
    decreases ws.len(),
{
    if ws.len() == 0 {
        assert(ws =~= Seq::<(u64, Seq<u8>)>::empty());
    } else {
        let w = ws.first();
        let e = withdrawal_bytes(w);
        let rest = ws.drop_first();
        let pmid = pos + e.len();
        let pend = pos + withdrawals_bytes(ws).len();
        assert(withdrawals_bytes(ws) == e + withdrawals_bytes(rest));
        lemma_peel(b, pos, pend, e, withdrawals_bytes(rest));
        lemma_sp_withdrawal_of_encoding(b, pos, w);
        assert forall|i: int| 0 <= i < rest.len() implies (#[trigger] rest[i]).1.len()
            <= 0xffff_ffff by {
            assert(rest[i] == ws[i + 1]);
        }
        lemma_sp_withdrawals_of_encoding(b, pmid, rest);
        assert(seq![w] + rest =~= ws);
    }
}

/// The parse of one signatory record's encoding is that record.
proof fn lemma_sp_signatory_of_encoding(b: Seq<u8>, pos: int, x: (Seq<u8>, u64))
    requires
        0 <= pos,
        pos + signatory_bytes(x).len() <= b.len(),
        b.subrange(pos, pos + signatory_bytes(x).len()) == signatory_bytes(x),
        x.0.len() <= 0xffff_ffff,
    ensures
        sp_signatory(b, pos) == Some((x, pos + signatory_bytes(x).len())),
{
    let e = signatory_bytes(x);
    let t1 = u32_be_bytes(x.0.len() as u32);
    let t3 = u64_be_bytes(x.1);
    let p1 = pos + 4;
    let p2 = p1 + x.0.len();
    let p3 = p2 + 8;
    assert(p3 == pos + e.len());
    assert(e =~= t1 + (x.0 + t3));
    lemma_peel(b, pos, p3, t1, x.0 + t3);
    lemma_peel(b, p1, p3, x.0, t3);
    lemma_sp_u32_of_be(b, pos, x.0.len() as u32);
    assert((x.0.len() as u32) as int == x.0.len());
    lemma_sp_u64_of_be(b, p2, x.1);
}

/// The parse of a run of signatory encodings is that run.
proof fn lemma_sp_signatories_of_encoding(b: Seq<u8>, pos: int, xs: Seq<(Seq<u8>, u64)>)
    requires
        0 <= pos,
        pos + signatories_bytes(xs).len() <= b.len(),
        b.subrange(pos, pos + signatories_bytes(xs).len()) == signatories_bytes(xs),
        forall|i: int| 0 <= i < xs.len() ==> (#[trigger] xs[i]).0.len() <= 0xffff_ffff,
    ensures
        sp_signatories(b, pos, xs.len()) == Some((xs, pos + signatories_bytes(xs).len())),
    decreases xs.len(),
{
    if xs.len() == 0 {
        assert(xs =~= Seq::<(Seq<u8>, u64)>::empty());
    } else {
        let x = xs.first();
        let e = signatory_bytes(x);
        let rest = xs.drop_first();
        let pmid = pos + e.len();
        let pend = pos + signatories_bytes(xs).len();
        assert(signatories_bytes(xs) == e + signatories_bytes(rest));
        lemma_peel(b, pos, pend, e, signatories_bytes(rest));
        lemma_sp_signatory_of_encoding(b, pos, x);
        assert forall|i: int| 0 <= i < rest.len() implies (#[trigger] rest[i]).0.len()
            <= 0xffff_ffff by {
            assert(rest[i] == xs[i + 1]);
        }
        lemma_sp_signatories_of_encoding(b, pmid, rest);
        assert(seq![x] + rest =~= xs);
    }
}

/// Where each section of a checkpoint encoding sits.
proof fn lemma_checkpoint_sections(c: CheckpointV)
    ensures
        ({
            let b = checkpoint_bytes(c);
            let q1 = 4int;
            let q2 = q1 + utxos_bytes(c.utxos).len();
            let q3 = q2 + 4;
            let q4 = q3 + withdrawals_bytes(c.withdrawals).len();
            let q5 = q4 + 8;
            let q6 = q5 + 4;
            let q7 = q6 + signatories_bytes(c.signatory_set.1).len();
            &&& q7 == b.len()
            &&& b.subrange(0, q1) == u32_be_bytes(c.utxos.len() as u32)
            &&& b.subrange(q1, q2) == utxos_bytes(c.utxos)
            &&& b.subrange(q2, q3) == u32_be_bytes(c.withdrawals.len() as u32)
            &&& b.subrange(q3, q4) == withdrawals_bytes(c.withdrawals)
            &&& b.subrange(q4, q5) == u64_be_bytes(c.signatory_set.0)
            &&& b.subrange(q5, q6) == u32_be_bytes(c.signatory_set.1.len() as u32)
            &&& b.subrange(q6, q7) == signatories_bytes(c.signatory_set.1)
        }),
{
    let b = checkpoint_bytes(c);
    let t1 = u32_be_bytes(c.utxos.len() as u32);
    let t2 = utxos_bytes(c.utxos);
    let t3 = u32_be_bytes(c.withdrawals.len() as u32);
    let t4 = withdrawals_bytes(c.withdrawals);
    let t5 = u64_be_bytes(c.signatory_set.0);
    let t6 = u32_be_bytes(c.signatory_set.1.len() as u32);
    let t7 = signatories_bytes(c.signatory_set.1);
    let q1 = 4int;
    let q2 = q1 + t2.len();
    let q3 = q2 + 4;
    let q4 = q3 + t4.len();
    let q5 = q4 + 8;
    let q6 = q5 + 4;
    let q7 = q6 + t7.len();
    assert(q7 == b.len());
    assert(b.subrange(0, q7) =~= b);
    assert(b =~= t1 + (t2 + (t3 + (t4 + (t5 + (t6 + t7))))));
    lemma_peel(b, 0, q7, t1, t2 + (t3 + (t4 + (t5 + (t6 + t7)))));
    lemma_peel(b, q1, q7, t2, t3 + (t4 + (t5 + (t6 + t7))));
    lemma_peel(b, q2, q7, t3, t4 + (t5 + (t6 + t7)));
    lemma_peel(b, q3, q7, t4, t5 + (t6 + t7));
    lemma_peel(b, q4, q7, t5, t6 + t7);
    lemma_peel(b, q5, q7, t6, t7);
}

/// Completeness of the parser, and the codec round trip: the canonical
/// encoding of every well-formed checkpoint parses back to exactly that
/// checkpoint, so `Checkpoint::decode` inverts `encode_into`.
#[verifier::rlimit(100)]
#[verifier::spinoff_prover]
pub proof fn lemma_parse_of_encode(c: CheckpointV)
    requires
        checkpoint_wf(c),
    ensures
        parse_checkpoint(checkpoint_bytes(c)) == Some(c),
{
    let b = checkpoint_bytes(c);
    let q1 = 4int;
    let q2 = q1 + utxos_bytes(c.utxos).len();
    let q3 = q2 + 4;
    let q4 = q3 + withdrawals_bytes(c.withdrawals).len();
    let q5 = q4 + 8;
    let q6 = q5 + 4;
    let q7 = q6 + signatories_bytes(c.signatory_set.1).len();
    lemma_checkpoint_sections(c);
    lemma_sp_u32_of_be(b, 0, c.utxos.len() as u32);
    assert((c.utxos.len() as u32) as nat == c.utxos.len());
    lemma_sp_utxos_of_encoding(b, q1, c.utxos);
    lemma_sp_u32_of_be(b, q2, c.withdrawals.len() as u32);
    assert((c.withdrawals.len() as u32) as nat == c.withdrawals.len());
    lemma_sp_withdrawals_of_encoding(b, q3, c.withdrawals);
    lemma_sp_u64_of_be(b, q4, c.signatory_set.0);
    lemma_sp_u32_of_be(b, q5, c.signatory_set.1.len() as u32);
    assert((c.signatory_set.1.len() as u32) as nat == c.signatory_set.1.len());
    lemma_sp_signatories_of_encoding(b, q6, c.signatory_set.1);
    assert(parse_checkpoint(b)->Some_0 =~~= c);
}


/// Reads the big-endian 32-bit integer at `pos`; its re-encoding is exactly
/// the four bytes read.
fn take_u32(bytes: &Vec<u8>, pos: usize) -> (r: Option<u32>)
    ensures
        r is Some ==> pos + 4 <= bytes@.len() && u32_be_bytes(r->0) == bytes@.subrange(
            pos as int,
            pos + 4,
        ),
        r is Some ==> sp_u32(bytes@, pos as int) == Some((r->0, pos + 4 as int)),
        r is None ==> pos + 4 > bytes@.len() && sp_u32(bytes@, pos as int) is None,
{
    if bytes.len() < 4 || pos > bytes.len() - 4 {
        return None;
    }
    let b0 = bytes[pos];
    let b1 = bytes[pos + 1];
    let b2 = bytes[pos + 2];
    let b3 = bytes[pos + 3];
    let v: u32 = ((b0 as u32) << 24) | ((b1 as u32) << 16) | ((b2 as u32) << 8) | (b3 as u32);
    proof {
        assert((v >> 24) as u8 == b0 && (v >> 16) as u8 == b1 && (v >> 8) as u8 == b2 && v as u8
            == b3) by (bit_vector)
            requires
                v == ((b0 as u32) << 24) | ((b1 as u32) << 16) | ((b2 as u32) << 8) | (b3 as u32),
        ;
        assert(u32_be_bytes(v) =~= bytes@.subrange(pos as int, pos + 4));
    }
    Some(v)
}

/// Reads the big-endian 64-bit integer at `pos`; its re-encoding is exactly
/// the eight bytes read.
fn take_u64(bytes: &Vec<u8>, pos: usize) -> (r: Option<u64>)
    ensures
        r is Some ==> pos + 8 <= bytes@.len() && u64_be_bytes(r->0) == bytes@.subrange(
            pos as int,
            pos + 8,
        ),
        r is Some ==> sp_u64(bytes@, pos as int) == Some((r->0, pos + 8 as int)),
        r is None ==> pos + 8 > bytes@.len() && sp_u64(bytes@, pos as int) is None,
{
    if bytes.len() < 8 || pos > bytes.len() - 8 {
        return None;
    }
    let b0 = bytes[pos];
    let b1 = bytes[pos + 1];
    let b2 = bytes[pos + 2];
    let b3 = bytes[pos + 3];
    let b4 = bytes[pos + 4];
    let b5 = bytes[pos + 5];
    let b6 = bytes[pos + 6];
    let b7 = bytes[pos + 7];
    let v: u64 = ((b0 as u64) << 56) | ((b1 as u64) << 48) | ((b2 as u64) << 40) | ((b3
        as u64) << 32) | ((b4 as u64) << 24) | ((b5 as u64) << 16) | ((b6 as u64) << 8) | (b7
        as u64);
    proof {
        assert((v >> 56) as u8 == b0 && (v >> 48) as u8 == b1 && (v >> 40) as u8 == b2 && (v
            >> 32) as u8 == b3 && (v >> 24) as u8 == b4 && (v >> 16) as u8 == b5 && (v >> 8) as u8
            == b6 && v as u8 == b7) by (bit_vector)
            requires
                v == ((b0 as u64) << 56) | ((b1 as u64) << 48) | ((b2 as u64) << 40) | ((b3
                    as u64) << 32) | ((b4 as u64) << 24) | ((b5 as u64) << 16) | ((b6
                    as u64) << 8) | (b7 as u64),
        ;
        assert(u64_be_bytes(v) =~= bytes@.subrange(pos as int, pos + 8));
    }
    Some(v)
}

/// Copies `n` bytes starting at `pos`.
fn take_bytes(bytes: &Vec<u8>, pos: usize, n: usize) -> (r: Option<Vec<u8>>)
    ensures
        r is Some ==> pos + n <= bytes@.len() && r->0@ == bytes@.subrange(pos as int, pos + n),
        r is Some ==> sp_bytes(bytes@, pos as int, n as int) == Some((r->0@, pos + n as int)),
        r is None ==> pos + n > bytes@.len() && sp_bytes(bytes@, pos as int, n as int) is None,
{
    let blen = bytes.len();
    if n > blen || pos > blen - n {
        return None;
    }
    let mut out: Vec<u8> = Vec::new();
    let mut i: usize = 0;
    while i < n
        invariant
            blen == bytes@.len(),
            pos + n <= blen,
            i <= n,
            out@ == bytes@.subrange(pos as int, pos + i),
        decreases n - i,
    {
        out.push(bytes[pos + i]);
        i = i + 1;
        assert(out@ =~= bytes@.subrange(pos as int, pos + i));
    }
    Some(out)
}


/// Parses `count` UTXO records starting at `start`: the records, where they
/// end, and their spec-parser agreement; `None` exactly where the spec
/// parser refuses.
fn decode_utxos(bytes: &Vec<u8>, start: usize, count: u32) -> (r: Option<(Vec<Utxo>, usize)>)
    requires
        start <= bytes@.len(),
    ensures
        match r {
            Some(out) => {
                &&& sp_utxos(bytes@, start as int, count as nat) == Some(
                    (out.0@.map_values(|u: Utxo| u@), out.1 as int),
                )
                &&& start <= out.1 <= bytes@.len()
                &&& out.0@.len() == count
            },
            None => sp_utxos(bytes@, start as int, count as nat) is None,
        },
{
    let ghost b = bytes@;
    let blen = bytes.len();
    let mut pos: usize = start;
    let mut out: Vec<Utxo> = Vec::new();
    let mut i: u32 = 0;
    proof {
        assert(out@.map_values(|u: Utxo| u@) =~= Seq::<UtxoV>::empty());
        if sp_utxos(b, start as int, count as nat) is Some {
            assert(Seq::<UtxoV>::empty() + sp_utxos(b, start as int, count as nat)->Some_0.0
                =~= sp_utxos(b, start as int, count as nat)->Some_0.0);
        }
    }
    while i < count
        invariant
            b == bytes@,
            blen == bytes@.len(),
            i <= count,
            start <= pos <= blen,
            out@.len() == i,
            sp_utxos(b, start as int, count as nat) == (match sp_utxos(
                b,
                pos as int,
                (count - i) as nat,
            ) {
                Some((rest, p)) => Some((out@.map_values(|u: Utxo| u@) + rest, p)),
                None => None::<(Seq<UtxoV>, int)>,
            }),
        decreases count - i,
    {
        let ghost parsed = out@.map_values(|u: Utxo| u@);
        let ghost k = (count - i) as nat;
        let ghost p0 = pos as int;
        let txid = match take_bytes(bytes, pos, 32) {
            None => {
                return None;
            },
            Some(v) => v,
        };
        pos = pos + 32;
        let vout = match take_u32(bytes, pos) {
            None => {
                return None;
            },
            Some(v) => v,
        };
        pos = pos + 4;
        let sigidx = match take_u64(bytes, pos) {
            None => {
                return None;
            },
            Some(v) => v,
        };
        pos = pos + 8;
        let dlen = match take_u32(bytes, pos) {
            None => {
                return None;
            },
            Some(v) => v,
        };
        pos = pos + 4;
        let data = match take_bytes(bytes, pos, dlen as usize) {
            None => {
                return None;
            },
            Some(v) => v,
        };
        pos = pos + dlen as usize;
        let u = Utxo { outpoint: Outpoint { txid, vout }, signatory_set_index: sigidx, data };
        out.push(u);
        i = i + 1;
        proof {
            assert(out@.map_values(|x: Utxo| x@) =~= parsed.push(u@));
            assert(u@ =~= UtxoV { txid: txid@, vout, signatory_set_index: sigidx, data: data@ });
            assert(sp_utxo(b, p0) == Some((u@, pos as int)));
            if sp_utxos(b, pos as int, (k - 1) as nat) is Some {
                let us = sp_utxos(b, pos as int, (k - 1) as nat)->Some_0.0;
                assert(parsed + (seq![u@] + us) =~= parsed.push(u@) + us);
            }
            assert((count - i) as nat == (k - 1) as nat);
        }
    }
    proof {
        assert(sp_utxos(b, pos as int, 0) == Some((Seq::<UtxoV>::empty(), pos as int)));
        assert(out@.map_values(|u: Utxo| u@) + Seq::<UtxoV>::empty() =~= out@.map_values(
            |u: Utxo| u@,
        ));
    }
    Some((out, pos))
}

/// Parses `count` withdrawal records starting at `start`.
fn decode_withdrawals(bytes: &Vec<u8>, start: usize, count: u32) -> (r: Option<
    (Vec<Withdrawal>, usize),
>)
    requires
        start <= bytes@.len(),
    ensures
        match r {
            Some(out) => {
                &&& sp_withdrawals(bytes@, start as int, count as nat) == Some(
                    (out.0@.map_values(|w: Withdrawal| w@), out.1 as int),
                )
                &&& start <= out.1 <= bytes@.len()
                &&& out.0@.len() == count
            },
            None => sp_withdrawals(bytes@, start as int, count as nat) is None,
        },
{
    let ghost b = bytes@;
    let blen = bytes.len();
    let mut pos: usize = start;
    let mut out: Vec<Withdrawal> = Vec::new();
    let mut j: u32 = 0;
    proof {
        assert(out@.map_values(|w: Withdrawal| w@) =~= Seq::<(u64, Seq<u8>)>::empty());
        if sp_withdrawals(b, start as int, count as nat) is Some {
            assert(Seq::<(u64, Seq<u8>)>::empty() + sp_withdrawals(
                b,
                start as int,
                count as nat,
            )->Some_0.0 =~= sp_withdrawals(b, start as int, count as nat)->Some_0.0);
        }
    }
    while j < count
        invariant
            b == bytes@,
            blen == bytes@.len(),
            j <= count,
            start <= pos <= blen,
            out@.len() == j,
            sp_withdrawals(b, start as int, count as nat) == (match sp_withdrawals(
                b,
                pos as int,
                (count - j) as nat,
            ) {
                Some((rest, p)) => Some((out@.map_values(|w: Withdrawal| w@) + rest, p)),
                None => None::<(Seq<(u64, Seq<u8>)>, int)>,
            }),
        decreases count - j,
    {
        let ghost parsed = out@.map_values(|w: Withdrawal| w@);
        let ghost k = (count - j) as nat;
        let ghost p0 = pos as int;
        let value = match take_u64(bytes, pos) {
            None => {
                return None;
            },
            Some(v) => v,
        };
        pos = pos + 8;
        let slen = match take_u32(bytes, pos) {
            None => {
                return None;
            },
            Some(v) => v,
        };
        pos = pos + 4;
        let script = match take_bytes(bytes, pos, slen as usize) {
            None => {
                return None;
            },
            Some(v) => v,
        };
        pos = pos + slen as usize;
        let w = Withdrawal { value, script };
        out.push(w);
        j = j + 1;
        proof {
            assert(out@.map_values(|x: Withdrawal| x@) =~= parsed.push(w@));
            assert(sp_withdrawal(b, p0) == Some((w@, pos as int)));
            if sp_withdrawals(b, pos as int, (k - 1) as nat) is Some {
                let ws = sp_withdrawals(b, pos as int, (k - 1) as nat)->Some_0.0;
                assert(parsed + (seq![w@] + ws) =~= parsed.push(w@) + ws);
            }
            assert((count - j) as nat == (k - 1) as nat);
        }
    }
    proof {
        assert(sp_withdrawals(b, pos as int, 0) == Some(
            (Seq::<(u64, Seq<u8>)>::empty(), pos as int),
        ));
        assert(out@.map_values(|w: Withdrawal| w@) + Seq::<(u64, Seq<u8>)>::empty()
            =~= out@.map_values(|w: Withdrawal| w@));
    }
    Some((out, pos))
}

/// Parses `count` signatory records starting at `start`.
fn decode_signatories(bytes: &Vec<u8>, start: usize, count: u32) -> (r: Option<
    (Vec<Signatory>, usize),
>)
    requires
        start <= bytes@.len(),
    ensures
        match r {
            Some(out) => {
                &&& sp_signatories(bytes@, start as int, count as nat) == Some(
                    (out.0@.map_values(|s: Signatory| s@), out.1 as int),
                )
                &&& start <= out.1 <= bytes@.len()
                &&& out.0@.len() == count
            },
            None => sp_signatories(bytes@, start as int, count as nat) is None,
        },
{
    let ghost b = bytes@;
    let blen = bytes.len();
    let mut pos: usize = start;
    let mut out: Vec<Signatory> = Vec::new();
    let mut k: u32 = 0;
    proof {
        assert(out@.map_values(|s: Signatory| s@) =~= Seq::<(Seq<u8>, u64)>::empty());
        if sp_signatories(b, start as int, count as nat) is Some {
            assert(Seq::<(Seq<u8>, u64)>::empty() + sp_signatories(
                b,
                start as int,
                count as nat,
            )->Some_0.0 =~= sp_signatories(b, start as int, count as nat)->Some_0.0);
        }
    }
    while k < count
        invariant
            b == bytes@,
            blen == bytes@.len(),
            k <= count,
            start <= pos <= blen,
            out@.len() == k,
            sp_signatories(b, start as int, count as nat) == (match sp_signatories(
                b,
                pos as int,
                (count - k) as nat,
            ) {
                Some((rest, p)) => Some((out@.map_values(|s: Signatory| s@) + rest, p)),
                None => None::<(Seq<(Seq<u8>, u64)>, int)>,
            }),
        decreases count - k,
    {
        let ghost parsed = out@.map_values(|s: Signatory| s@);
        let ghost kk = (count - k) as nat;
        let ghost p0 = pos as int;
        let klen = match take_u32(bytes, pos) {
            None => {
                return None;
            },
            Some(v) => v,
        };
        pos = pos + 4;
        let pubkey = match take_bytes(bytes, pos, klen as usize) {
            None => {
                return None;
            },
            Some(v) => v,
        };
        pos = pos + klen as usize;
        let power = match take_u64(bytes, pos) {
            None => {
                return None;
            },
            Some(v) => v,
        };
        pos = pos + 8;
        let sig = Signatory { pubkey, voting_power: power };
        out.push(sig);
        k = k + 1;
        proof {
            assert(out@.map_values(|x: Signatory| x@) =~= parsed.push(sig@));
            assert(sp_signatory(b, p0) == Some((sig@, pos as int)));
            if sp_signatories(b, pos as int, (kk - 1) as nat) is Some {
                let xs = sp_signatories(b, pos as int, (kk - 1) as nat)->Some_0.0;
                assert(parsed + (seq![sig@] + xs) =~= parsed.push(sig@) + xs);
            }
            assert((count - k) as nat == (kk - 1) as nat);
        }
    }
    proof {
        assert(sp_signatories(b, pos as int, 0) == Some(
            (Seq::<(Seq<u8>, u64)>::empty(), pos as int),
        ));
        assert(out@.map_values(|s: Signatory| s@) + Seq::<(Seq<u8>, u64)>::empty()
            =~= out@.map_values(|s: Signatory| s@));
    }
    Some((out, pos))
}

impl Checkpoint {
    /// Parses a canonical checkpoint encoding, consuming the whole input:
    /// computes exactly `parse_checkpoint` on the bytes. By
    /// `lemma_parse_sound` any accepted input is exactly the canonical
    /// encoding of the result, and by `lemma_parse_of_encode` every
    /// well-formed checkpoint's encoding is accepted and recovered.
    #[verifier::rlimit(100)]
    #[verifier::spinoff_prover]
    pub fn decode(bytes: &Vec<u8>) -> (r: Option<Checkpoint>)
        ensures
            r is Some ==> parse_checkpoint(bytes@) == Some(r->0@),
            r is None ==> parse_checkpoint(bytes@) is None,
            r is Some ==> checkpoint_bytes(r->0@) == bytes@ && checkpoint_wf(r->0@),
    {
        let ghost b = bytes@;
        let blen = bytes.len();
        let nu = match take_u32(bytes, 0) {
            None => {
                return None;
            },
            Some(v) => v,
        };
        proof {
            assert(parse_checkpoint(b) == parse_utxos_from(b, 4, nu as nat));
        }
        let (utxos, upos) = match decode_utxos(bytes, 4, nu) {
            None => {
                return None;
            },
            Some(v) => v,
        };
        let ghost uview = utxos@.map_values(|u: Utxo| u@);
        proof {
            assert(parse_checkpoint(b) == parse_wcount(b, upos as int, uview));
        }
        let nw = match take_u32(bytes, upos) {
            None => {
                return None;
            },
            Some(v) => v,
        };
        proof {
            assert(parse_checkpoint(b) == parse_withdrawals_from(b, upos + 4, uview, nw as nat));
        }
        let (withdrawals, wpos) = match decode_withdrawals(bytes, upos + 4, nw) {
            None => {
                return None;
            },
            Some(v) => v,
        };
        let ghost wview = withdrawals@.map_values(|w: Withdrawal| w@);
        proof {
            assert(parse_checkpoint(b) == parse_snapshot_from(b, wpos as int, uview, wview));
        }
        let time = match take_u64(bytes, wpos) {
            None => {
                return None;
            },
            Some(v) => v,
        };
        let ns = match take_u32(bytes, wpos + 8) {
            None => {
                return None;
            },
            Some(v) => v,
        };
        let (sigs, spos) = match decode_signatories(bytes, wpos + 12, ns) {
            None => {
                return None;
            },
            Some(v) => v,
        };
        let ghost sview = sigs@.map_values(|s: Signatory| s@);
        if spos != blen {
            return None;
        }
        let c = Checkpoint {
            utxos,
            withdrawals,
            signatory_set: SignatorySetSnapshot {
                time,
                signatories: SignatorySet { signatories: sigs },
            },
        };
        proof {
            assert(c@ =~~= CheckpointV {
                utxos: uview,
                withdrawals: wview,
                signatory_set: (time, sview),
            });
            assert(parse_checkpoint(b) == Some(c@));
            lemma_parse_sound(b, c@);
        }
        Some(c)
    }
}

} // verus!


