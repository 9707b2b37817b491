use peg_core::headers::{BtcHeader, block_hash};
use peg_core::signatory::{Signatory, SignatorySet, SignatorySetSnapshot};
use peg_core::state_machine::{Action, Checkpoint, HeaderTransaction, Outpoint, State, Tx, Utxo,
    Withdrawal, run};
use peg_core::validators::Validators;
use peg_core::work::work;

#[test]
fn work_of_known_hashes() {
    // an all-zero hash stands for the hardest possible target
    assert_eq!(work(&vec![0u8; 32]), u64::MAX);
    // an all-ones hash carries no work at all
    assert_eq!(work(&vec![0xffu8; 32]), 0);
    // 2^232 as a big-endian hash: floor((2^256 - 1) / (2^232 + 1)) = 2^24 - 1
    let mut h = vec![0u8; 32];
    h[2] = 1;
    assert_eq!(work(&h), 16777215);
}

#[test]
fn checkpoint_round_trip() {
    let checkpoint = Checkpoint {
        utxos: vec![
            Utxo {
                outpoint: Outpoint { txid: vec![9; 32], vout: 3 },
                signatory_set_index: 1,
                data: vec![123; 33],
            },
        ],
        withdrawals: vec![Withdrawal { value: 5000, script: vec![1, 2, 3] }],
        signatory_set: SignatorySetSnapshot {
            time: 777,
            signatories: SignatorySet {
                signatories: vec![Signatory { pubkey: vec![2; 33], voting_power: 42 }],
            },
        },
    };
    let mut buf: Vec<u8> = Vec::new();
    checkpoint.encode_into(&mut buf);
    assert_eq!(checkpoint.encoding_length(), buf.len());

    let decoded = Checkpoint::decode(&buf).unwrap();
    assert_eq!(decoded.utxos.len(), 1);
    assert_eq!(decoded.utxos[0].outpoint.txid, vec![9; 32]);
    assert_eq!(decoded.utxos[0].outpoint.vout, 3);
    assert_eq!(decoded.utxos[0].signatory_set_index, 1);
    assert_eq!(decoded.utxos[0].data, vec![123; 33]);
    assert_eq!(decoded.withdrawals.len(), 1);
    assert_eq!(decoded.withdrawals[0].value, 5000);
    assert_eq!(decoded.withdrawals[0].script, vec![1, 2, 3]);
    assert_eq!(decoded.signatory_set.time, 777);
    assert_eq!(decoded.signatory_set, checkpoint.signatory_set);

    // a truncated encoding is refused
    let mut short = buf.clone();
    short.pop();
    assert!(Checkpoint::decode(&short).is_none());
    // trailing garbage is refused
    let mut long = buf;
    long.push(0);
    assert!(Checkpoint::decode(&long).is_none());
}

fn anchored_state() -> (State, Validators, BtcHeader) {
    let mut state = State::new();
    let anchor = BtcHeader {
        version: 1,
        prev_blockhash: vec![0; 32],
        merkle_root: vec![7; 32],
        time: 1,
        bits: 0x207fffff,
        nonce: 0,
    };
    state.headers.add_header_raw(anchor.clone(), 10).unwrap();
    let mut validators = Validators::new();
    validators.insert(
        &vec![
            3, 148, 217, 3, 10, 128, 64, 14, 129, 125, 33, 213, 163, 104, 0, 227, 122, 136, 27,
            45, 207, 44, 64, 24, 35, 166, 166, 118, 25, 12, 200, 183, 98,
        ],
        100,
    );
    (state, validators, anchor)
}

#[test]
fn header_tx_extends_chain() {
    let (mut state, mut validators, anchor) = anchored_state();
    let next = BtcHeader {
        version: 1,
        prev_blockhash: block_hash(&anchor),
        merkle_root: vec![8; 32],
        time: 2,
        bits: 0x207fffff,
        nonce: 1,
    };
    let after = BtcHeader {
        version: 1,
        prev_blockhash: block_hash(&next),
        merkle_root: vec![9; 32],
        time: 3,
        bits: 0x207fffff,
        nonce: 2,
    };
    let action = Action::Transaction(Tx::Header(HeaderTransaction {
        block_headers: vec![next, after],
    }));
    run(&mut state, action, &mut validators).unwrap();
    assert_eq!(state.headers.get_header_for_height(11).unwrap().merkle_root, vec![8; 32]);
    assert_eq!(state.headers.get_header_for_height(12).unwrap().merkle_root, vec![9; 32]);
}

#[test]
fn header_tx_broken_link_is_atomic() {
    let (mut state, mut validators, anchor) = anchored_state();
    let good = BtcHeader {
        version: 1,
        prev_blockhash: block_hash(&anchor),
        merkle_root: vec![8; 32],
        time: 2,
        bits: 0x207fffff,
        nonce: 1,
    };
    let unlinked = BtcHeader {
        version: 1,
        prev_blockhash: vec![0xee; 32],
        merkle_root: vec![9; 32],
        time: 3,
        bits: 0x207fffff,
        nonce: 2,
    };
    let action = Action::Transaction(Tx::Header(HeaderTransaction {
        block_headers: vec![good, unlinked],
    }));
    let err = run(&mut state, action, &mut validators).unwrap_err();
    assert_eq!(err.message(), "Header does not extend the stored chain");
    // nothing was stored: the valid prefix was rolled back too
    assert!(state.headers.get_header_for_height(11).is_none());
}

#[test]
fn transfer_rejects_exhausted_nonce() {
    let (mut state, mut validators, _anchor) = anchored_state();
    let action = Action::BeginBlock { time_seconds: 1 };
    run(&mut state, action, &mut validators).unwrap();

    // an account that has used up its whole nonce space can sign nothing more
    let sender = vec![9u8; 33];
    state.accounts.insert(
        &sender,
        peg_core::account::Account { balance: 5000, nonce: u64::MAX },
    );
    let tx = peg_core::state_machine::TransferTransaction {
        from: sender,
        to: vec![124; 33],
        amount: 100,
        fee_amount: 1000,
        nonce: u64::MAX,
        signature: vec![0; 64],
    };
    let action = Action::Transaction(Tx::Transfer(tx));
    let err = run(&mut state, action, &mut validators).unwrap_err();
    assert_eq!(err.message(), "Invalid account nonce for transaction");
}

#[test]
fn begin_block_rejects_bad_validator_key() {
    let mut state = State::new();
    let mut validators = Validators::new();
    // a 33-byte string that is not a compressed secp256k1 point
    validators.insert(&vec![1; 33], 9);
    let action = Action::BeginBlock { time_seconds: 5 };
    let err = run(&mut state, action, &mut validators).unwrap_err();
    assert_eq!(err.message(), "Invalid validator public key");
    assert!(state.current_signatory_set().is_err());
}

#[test]
fn begin_block_rejects_short_validator_key() {
    let mut state = State::new();
    let mut validators = Validators::new();
    validators.insert(&vec![2; 20], 9);
    let action = Action::BeginBlock { time_seconds: 5 };
    let err = run(&mut state, action, &mut validators).unwrap_err();
    assert_eq!(err.message(), "Invalid validator public key");
}
