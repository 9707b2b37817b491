use bitcoin::hashes::Hash as HashExt;
use peg_core::account::Account;
use peg_core::headers::BtcHeader;
use peg_core::signatory::{Signatory, SignatorySet, SignatorySetSnapshot,
    signatories_from_validators, output_script};
use peg_core::state_machine::{Action, DepositTransaction, State, TransferTransaction, Tx,
    WithdrawalTransaction, WorkProofTransaction, get_checkpoint_header, initialize, run,
    CHECKPOINT_HEIGHT};
use peg_core::validators::Validators;
use std::collections::HashSet;

const K0: [u8; 33] = [
    3, 148, 217, 3, 10, 128, 64, 14, 129, 125, 33, 213, 163, 104, 0, 227, 122, 136, 27, 45, 207,
    44, 64, 24, 35, 166, 166, 118, 25, 12, 200, 183, 98,
];

const K1: [u8; 33] = [
    2, 120, 15, 192, 99, 177, 43, 235, 23, 134, 193, 123, 205, 196, 253, 121, 49, 80, 163, 93,
    230, 224, 193, 88, 89, 18, 15, 145, 105, 217, 229, 114, 148,
];

fn mock_validator_set() -> Validators {
    let mut vals = Validators::new();
    vals.insert(&K0.to_vec(), 100);
    vals
}

fn convert_header(h: &bitcoin::BlockHeader) -> BtcHeader {
    BtcHeader {
        version: h.version as u32,
        prev_blockhash: h.prev_blockhash.as_hash().into_inner().to_vec(),
        merkle_root: h.merkle_root.as_hash().into_inner().to_vec(),
        time: h.time,
        bits: h.bits,
        nonce: h.nonce,
    }
}

struct MockNet {
    state: State,
    validators: Validators,
    btc_block: bitcoin::Block,
}

impl MockNet {
    fn new() -> Self {
        let tx = build_tx(vec![build_txout(100_000_000, vec![].into())]);
        let block = build_block(vec![tx]);
        MockNet::with_btc_block(block)
    }

    fn with_btc_block(initial_block: bitcoin::Block) -> Self {
        let mut net = MockNet {
            state: State::new(),
            validators: mock_validator_set(),
            btc_block: initial_block.clone(),
        };
        net.state
            .headers
            .add_header_raw(convert_header(&initial_block.header), 0)
            .expect("failed to create mock net");
        let action = Action::BeginBlock { time_seconds: 123 };
        run(&mut net.state, action, &mut net.validators).unwrap();
        net
    }

    fn create_btc_proof(
        &self,
    ) -> (bitcoin::Transaction, bitcoin::util::merkleblock::PartialMerkleTree) {
        let tx = self.btc_block.txdata[0].clone();
        let mut txids = HashSet::new();
        txids.insert(tx.txid());
        (
            tx,
            bitcoin::util::merkleblock::MerkleBlock::from_block(&self.btc_block, &txids).txn,
        )
    }
}

fn apply(net: &mut MockNet, action: Action) {
    if let Err(e) = run(&mut net.state, action, &mut net.validators) {
        panic!("{}", e.message());
    }
}

fn build_txout(value: u64, script_pubkey: bitcoin::Script) -> bitcoin::TxOut {
    bitcoin::TxOut { value, script_pubkey }
}

fn build_tx(outputs: Vec<bitcoin::TxOut>) -> bitcoin::Transaction {
    bitcoin::Transaction {
        version: 2,
        lock_time: bitcoin::PackedLockTime(0),
        input: vec![],
        output: outputs,
    }
}

fn build_block(txs: Vec<bitcoin::Transaction>) -> bitcoin::Block {
    let hashes = txs.iter().map(|tx| tx.txid().as_hash());
    let merkle_root = bitcoin::util::hash::bitcoin_merkle_root(hashes).unwrap().into();

    let header = bitcoin::BlockHeader {
        version: 1,
        prev_blockhash: bitcoin::BlockHash::all_zeros(),
        merkle_root,
        time: 1,
        bits: 0x207fffff,
        nonce: 0,
    };

    bitcoin::Block { header, txdata: txs }
}

fn deposit_script(recipient: Vec<u8>) -> bitcoin::Script {
    let set = signatories_from_validators(&mock_validator_set()).unwrap();
    output_script(&set, &recipient).into()
}

fn invalidate_proof(
    proof: bitcoin::util::merkleblock::PartialMerkleTree,
) -> bitcoin::util::merkleblock::PartialMerkleTree {
    let mut proof_bytes = bitcoin::consensus::encode::serialize(&proof);
    proof_bytes[10] ^= 1;
    bitcoin::consensus::encode::deserialize(proof_bytes.as_slice()).unwrap()
}

fn create_keypair(byte: u8) -> (secp256k1::SecretKey, secp256k1::PublicKey) {
    let privkey = secp256k1::SecretKey::from_slice(&[byte; 32]).unwrap();
    let secp = secp256k1::Secp256k1::new();
    let pubkey = secp256k1::PublicKey::from_secret_key(&secp, &privkey);
    (privkey, pubkey)
}

fn sign(sighash: &[u8], privkey: secp256k1::SecretKey) -> Vec<u8> {
    let secp = secp256k1::Secp256k1::new();
    let message = secp256k1::Message::from_slice(sighash).unwrap();
    let signature = secp.sign_ecdsa(&message, &privkey);
    signature.serialize_compact().to_vec()
}

#[test]
fn init() {
    let mut state = State::new();
    let chkpt = get_checkpoint_header();
    initialize(&mut state).unwrap();

    let header = state
        .headers
        .get_header_for_height(chkpt.height)
        .unwrap();
    assert_eq!(header.merkle_root, chkpt.header.merkle_root);
    assert_eq!(header.prev_blockhash, chkpt.header.prev_blockhash);
    assert_eq!(header.version, chkpt.header.version);
    assert_eq!(chkpt.height, CHECKPOINT_HEIGHT);
}

#[test]
fn begin_block() {
    let mut net = MockNet::new();

    // initial signatories
    let expected = SignatorySetSnapshot {
        time: 123,
        signatories: SignatorySet {
            signatories: vec![Signatory { pubkey: K0.to_vec(), voting_power: 100 }],
        },
    };
    assert_eq!(net.state.current_signatory_set().unwrap(), &expected);

    // changed validator set, too soon: should be the same signatory set
    net.validators.insert(&K1.to_vec(), 555);
    let action = Action::BeginBlock { time_seconds: 456 };
    run(&mut net.state, action, &mut net.validators).unwrap();
    assert_eq!(net.state.current_signatory_set().unwrap(), &expected);

    // lots of time has passed, the signatory set should be updated
    let action = Action::BeginBlock { time_seconds: 1_000_000_000 };
    run(&mut net.state, action, &mut net.validators).unwrap();
    let expected = SignatorySetSnapshot {
        time: 1_000_000_000,
        signatories: SignatorySet {
            signatories: vec![
                Signatory { pubkey: K1.to_vec(), voting_power: 555 },
                Signatory { pubkey: K0.to_vec(), voting_power: 100 },
            ],
        },
    };
    assert_eq!(net.state.current_signatory_set().unwrap(), &expected);
}

#[test]
#[should_panic(expected = "Merkle root not found for deposit transaction")]
fn deposit_invalid_height() {
    let mut net = MockNet::new();

    let (tx, proof) = net.create_btc_proof();
    let deposit = DepositTransaction {
        height: 100,
        proof,
        tx,
        block_index: 0,
        recipients: vec![],
    };
    let action = Action::Transaction(Tx::Deposit(deposit));

    apply(&mut net, action);
}

#[test]
#[should_panic(expected = "Proof merkle root does not match chain")]
fn deposit_invalid_proof() {
    let mut net = MockNet::new();

    let (tx, proof) = net.create_btc_proof();
    let proof = invalidate_proof(proof);

    let deposit = DepositTransaction {
        height: 0,
        proof,
        tx,
        block_index: 0,
        recipients: vec![],
    };
    let action = Action::Transaction(Tx::Deposit(deposit));

    apply(&mut net, action);
}

#[test]
#[should_panic(expected = "Transaction does not contain any deposit outputs")]
fn deposit_irrelevant() {
    let mut net = MockNet::new();

    let (tx, proof) = net.create_btc_proof();
    let deposit = DepositTransaction {
        height: 0,
        proof,
        tx,
        block_index: 0,
        recipients: vec![vec![123; 33]],
    };
    let action = Action::Transaction(Tx::Deposit(deposit));

    apply(&mut net, action);
}

#[test]
#[should_panic(expected = "Transaction was already processed")]
fn deposit_duplicate() {
    let tx = build_tx(vec![build_txout(100_000_000, deposit_script(vec![123; 33]))]);
    let block = build_block(vec![tx.clone()]);
    let mut net = MockNet::with_btc_block(block);

    let (_, proof) = net.create_btc_proof();
    let deposit = DepositTransaction {
        height: 0,
        proof: proof.clone(),
        tx: tx.clone(),
        block_index: 0,
        recipients: vec![vec![123; 33]],
    };
    let action = Action::Transaction(Tx::Deposit(deposit));
    apply(&mut net, action);

    let deposit = DepositTransaction {
        height: 0,
        proof,
        tx,
        block_index: 0,
        recipients: vec![vec![123; 33]],
    };
    let action = Action::Transaction(Tx::Deposit(deposit));
    apply(&mut net, action);
}

#[test]
#[should_panic(expected = "Consumed all recipients")]
fn deposit_no_recipients() {
    let tx = build_tx(vec![build_txout(100_000_000, deposit_script(vec![123; 33]))]);
    let block = build_block(vec![tx.clone()]);
    let mut net = MockNet::with_btc_block(block);

    let (_, proof) = net.create_btc_proof();
    let deposit = DepositTransaction {
        height: 0,
        proof,
        tx,
        block_index: 0,
        recipients: vec![],
    };
    let action = Action::Transaction(Tx::Deposit(deposit));

    apply(&mut net, action);
}

#[test]
fn deposit_bad_recipient() {
    let tx = build_tx(vec![build_txout(100_000_000, deposit_script(vec![123; 33]))]);
    let block = build_block(vec![tx.clone()]);
    let mut net = MockNet::with_btc_block(block);

    let (_, proof) = net.create_btc_proof();
    let deposit = DepositTransaction {
        height: 0,
        proof,
        tx,
        block_index: 0,
        recipients: vec![vec![123; 32]],
    };
    let action = Action::Transaction(Tx::Deposit(deposit));

    let err = run(&mut net.state, action, &mut net.validators).unwrap_err();
    assert_eq!(err.message(), "Recipient must be 33 bytes");
}

#[test]
fn deposit_ok() {
    let tx = build_tx(vec![build_txout(100_000_000, deposit_script(vec![123; 33]))]);

    let block = build_block(vec![tx.clone()]);
    let mut net = MockNet::with_btc_block(block);

    let (tx, proof) = net.create_btc_proof();
    let deposit = DepositTransaction {
        height: 0,
        proof,
        tx,
        block_index: 0,
        recipients: vec![vec![123; 33]],
    };
    let action = Action::Transaction(Tx::Deposit(deposit));

    apply(&mut net, action);
    // check recipient balance
    assert_eq!(
        net.state.accounts.get(&vec![123; 33]).unwrap(),
        Account { balance: 100_000_000, nonce: 0 }
    );
    assert_eq!(net.state.utxos.len(), 1);
}

#[test]
#[should_panic(expected = "Transaction fee is too small")]
fn transfer_insufficient_fee() {
    let mut net = MockNet::new();

    let (sender_privkey, sender_pubkey) = create_keypair(1);
    let sender_address = sender_pubkey.serialize().to_vec();
    let receiver_address = vec![124; 33];

    net.state
        .accounts
        .insert(&sender_address, Account { balance: 1234, nonce: 0 });

    let mut tx = TransferTransaction {
        from: sender_address,
        to: receiver_address,
        signature: vec![],
        amount: 100,
        nonce: 0,
        fee_amount: 0,
    };
    let sig = sign(&tx.sighash(), sender_privkey);
    tx.signature = sig;

    let action = Action::Transaction(Tx::Transfer(tx));
    apply(&mut net, action);
}

#[test]
#[should_panic(expected = "Account does not exist")]
fn transfer_from_nonexistent_account() {
    let mut net = MockNet::new();

    let (sender_privkey, sender_pubkey) = create_keypair(1);
    let sender_address = sender_pubkey.serialize().to_vec();
    let receiver_address = vec![124; 33];

    let mut tx = TransferTransaction {
        from: sender_address,
        to: receiver_address,
        signature: vec![],
        amount: 100,
        nonce: 0,
        fee_amount: 1000,
    };
    let sig = sign(&tx.sighash(), sender_privkey);
    tx.signature = sig;

    let action = Action::Transaction(Tx::Transfer(tx));
    apply(&mut net, action);
}

#[test]
#[should_panic(expected = "Insufficient balance in sender account")]
fn transfer_insufficient_balance() {
    let mut net = MockNet::new();

    let (sender_privkey, sender_pubkey) = create_keypair(1);
    let sender_address = sender_pubkey.serialize().to_vec();
    let receiver_address = vec![124; 33];

    net.state
        .accounts
        .insert(&sender_address, Account { balance: 1234, nonce: 0 });

    let mut tx = TransferTransaction {
        from: sender_address,
        to: receiver_address,
        signature: vec![],
        amount: 300,
        nonce: 0,
        fee_amount: 1000,
    };
    let sig = sign(&tx.sighash(), sender_privkey);
    tx.signature = sig;

    let action = Action::Transaction(Tx::Transfer(tx));
    apply(&mut net, action);
}

#[test]
#[should_panic(expected = "Invalid account nonce for transaction")]
fn transfer_invalid_nonce() {
    let mut net = MockNet::new();

    let (sender_privkey, sender_pubkey) = create_keypair(1);
    let sender_address = sender_pubkey.serialize().to_vec();
    let receiver_address = vec![124; 33];

    net.state
        .accounts
        .insert(&sender_address, Account { balance: 1234, nonce: 100 });

    let mut tx = TransferTransaction {
        from: sender_address,
        to: receiver_address,
        signature: vec![],
        amount: 100,
        nonce: 0,
        fee_amount: 1000,
    };
    let sig = sign(&tx.sighash(), sender_privkey);
    tx.signature = sig;

    let action = Action::Transaction(Tx::Transfer(tx));
    apply(&mut net, action);
}

#[test]
#[should_panic(expected = "Invalid signature")]
fn transfer_invalid_signature() {
    let mut net = MockNet::new();

    let (sender_privkey, sender_pubkey) = create_keypair(1);
    let sender_address = sender_pubkey.serialize().to_vec();
    let receiver_address = vec![124; 33];

    net.state
        .accounts
        .insert(&sender_address, Account { balance: 1234, nonce: 0 });

    let mut tx = TransferTransaction {
        from: sender_address,
        to: receiver_address,
        signature: vec![],
        amount: 100,
        nonce: 0,
        fee_amount: 1000,
    };
    let mut sig = sign(&tx.sighash(), sender_privkey);
    sig[10] ^= 1;
    tx.signature = sig;

    let action = Action::Transaction(Tx::Transfer(tx));
    apply(&mut net, action);
}

#[test]
fn transfer_to_self() {
    let mut net = MockNet::new();

    let (sender_privkey, sender_pubkey) = create_keypair(1);
    let sender_address = sender_pubkey.serialize().to_vec();

    net.state
        .accounts
        .insert(&sender_address, Account { balance: 1234, nonce: 0 });

    let mut tx = TransferTransaction {
        from: sender_address.clone(),
        to: sender_address,
        signature: vec![],
        amount: 100,
        nonce: 0,
        fee_amount: 1000,
    };
    let sig = sign(&tx.sighash(), sender_privkey);
    tx.signature = sig;

    let action = Action::Transaction(Tx::Transfer(tx));
    let err = run(&mut net.state, action, &mut net.validators).unwrap_err();
    assert_eq!(err.message(), "Account cannot send to itself");
}

#[test]
fn transfer_ok() {
    let mut net = MockNet::new();

    let (sender_privkey, sender_pubkey) = create_keypair(1);
    let sender_address = sender_pubkey.serialize().to_vec();
    let receiver_address = vec![124; 33];

    net.state
        .accounts
        .insert(&sender_address, Account { balance: 1234, nonce: 0 });

    let mut tx = TransferTransaction {
        from: sender_address.clone(),
        to: receiver_address.clone(),
        signature: vec![],
        amount: 100,
        nonce: 0,
        fee_amount: 1000,
    };
    let sig = sign(&tx.sighash(), sender_privkey);
    tx.signature = sig;

    let action = Action::Transaction(Tx::Transfer(tx));
    apply(&mut net, action);

    assert_eq!(
        net.state.accounts.get(&receiver_address).unwrap(),
        Account { balance: 100, nonce: 0 }
    );
    assert_eq!(
        net.state.accounts.get(&sender_address).unwrap(),
        Account { balance: 134, nonce: 1 }
    );
}

#[test]
fn withdrawal_ok() {
    let mut net = MockNet::new();

    let (sender_privkey, sender_pubkey) = create_keypair(1);
    let sender_address = sender_pubkey.serialize().to_vec();

    net.state
        .accounts
        .insert(&sender_address, Account { balance: 1234, nonce: 0 });

    let mut tx = WithdrawalTransaction {
        from: sender_address.clone(),
        to: vec![123],
        amount: 1000,
        signature: vec![],
        nonce: 0,
    };
    let sig = sign(&tx.sighash(), sender_privkey);
    tx.signature = sig;
    let action = Action::Transaction(Tx::Withdrawal(tx));
    apply(&mut net, action);

    assert_eq!(
        net.state.accounts.get(&sender_address).unwrap(),
        Account { balance: 234, nonce: 1 }
    );
    assert_eq!(net.state.pending_withdrawals[0].value, 1000);
}

#[test]
#[should_panic(expected = "Invalid signature")]
fn withdrawal_invalid_signature() {
    let mut net = MockNet::new();

    let (sender_privkey, sender_pubkey) = create_keypair(1);
    let sender_address = sender_pubkey.serialize().to_vec();

    net.state
        .accounts
        .insert(&sender_address, Account { balance: 1234, nonce: 0 });

    let mut tx = WithdrawalTransaction {
        from: sender_address,
        to: vec![123],
        amount: 1000,
        signature: vec![],
        nonce: 0,
    };
    let mut sig = sign(&tx.sighash(), sender_privkey);
    sig[10] ^= 1;
    tx.signature = sig;
    let action = Action::Transaction(Tx::Withdrawal(tx));
    apply(&mut net, action);
}

#[test]
#[should_panic(expected = "Invalid account nonce for withdrawal transaction")]
fn withdrawal_invalid_nonce() {
    let mut net = MockNet::new();

    let (sender_privkey, sender_pubkey) = create_keypair(1);
    let sender_address = sender_pubkey.serialize().to_vec();

    net.state
        .accounts
        .insert(&sender_address, Account { balance: 1234, nonce: 100 });

    let mut tx = WithdrawalTransaction {
        from: sender_address,
        to: vec![123],
        amount: 1000,
        signature: vec![],
        nonce: 0,
    };
    let sig = sign(&tx.sighash(), sender_privkey);
    tx.signature = sig;
    let action = Action::Transaction(Tx::Withdrawal(tx));
    apply(&mut net, action);
}

#[test]
#[should_panic(expected = "Insufficient balance in sender account")]
fn withdrawal_insufficient_balance() {
    let mut net = MockNet::new();

    let (sender_privkey, sender_pubkey) = create_keypair(1);
    let sender_address = sender_pubkey.serialize().to_vec();

    net.state
        .accounts
        .insert(&sender_address, Account { balance: 1234, nonce: 0 });

    let mut tx = WithdrawalTransaction {
        from: sender_address,
        to: vec![123],
        amount: 2000,
        signature: vec![],
        nonce: 0,
    };
    let sig = sign(&tx.sighash(), sender_privkey);
    tx.signature = sig;
    let action = Action::Transaction(Tx::Withdrawal(tx));
    apply(&mut net, action);
}

#[test]
#[should_panic(expected = "Account does not exist")]
fn withdrawal_from_nonexistent_account() {
    let mut net = MockNet::new();

    let (sender_privkey, sender_pubkey) = create_keypair(1);
    let sender_address = sender_pubkey.serialize().to_vec();

    let mut tx = WithdrawalTransaction {
        from: sender_address,
        to: vec![123],
        amount: 1000,
        signature: vec![],
        nonce: 0,
    };
    let sig = sign(&tx.sighash(), sender_privkey);
    tx.signature = sig;
    let action = Action::Transaction(Tx::Withdrawal(tx));
    apply(&mut net, action);
}

#[test]
fn work_proof_ok_then_replay() {
    let mut net = MockNet::new();

    // sha256([7; 33] ‖ nonce) reaches the minimum work at this nonce, with a
    // work estimate of exactly 2998166 expected attempts
    let tx = WorkProofTransaction { public_key: vec![7; 33], nonce: 1208417 };
    let action = Action::Transaction(Tx::WorkProof(tx));
    apply(&mut net, action);
    assert_eq!(net.validators.get(&vec![7; 33]), Some(2998166));

    let tx = WorkProofTransaction { public_key: vec![7; 33], nonce: 1208417 };
    let action = Action::Transaction(Tx::WorkProof(tx));
    let r = run(&mut net.state, action, &mut net.validators);
    assert_eq!(
        r.unwrap_err().message(),
        "Work proof has already been redeemed"
    );
    assert_eq!(net.validators.get(&vec![7; 33]), Some(2998166));
}

#[test]
fn work_proof_insufficient() {
    let mut net = MockNet::new();
    // at nonce zero this preimage falls far short of the minimum work
    let tx = WorkProofTransaction { public_key: vec![7; 33], nonce: 0 };
    let action = Action::Transaction(Tx::WorkProof(tx));
    let err = run(&mut net.state, action, &mut net.validators).unwrap_err();
    assert_eq!(err.message(), "Proof has less than minimum work value");
}

#[test]
fn signature_tx_unimplemented() {
    let mut net = MockNet::new();
    let tx = peg_core::state_machine::SignatureTransaction { signatures: vec![] };
    let action = Action::Transaction(Tx::Signature(tx));
    let err = run(&mut net.state, action, &mut net.validators).unwrap_err();
    assert_eq!(err.message(), "Unimplemented transaction type");
}
