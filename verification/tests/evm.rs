//! A witness recorded from a batch of blocks replays block by block against a
//! fresh state, with the same receipts, and passes the same checks against the
//! headers.
//!
//! The blocks are built to hit the places where the batch's long-lived cache
//! and a fresh per-block state disagree on what reaches the database: accounts
//! and slots read in an earlier block, a contract created in an earlier block
//! (known storage in the cache, loaded storage in a fresh state), an account
//! first seen absent and then created, reads inside a call that reverts, and
//! withdrawals touching accounts nothing else read.
use alloy_consensus::proofs::calculate_receipt_root;
use alloy_consensus::{Eip658Value, Header, Receipt, ReceiptEnvelope, TxReceipt};
use alloy_primitives::{keccak256, Address, Bloom, Bytes, TxKind, B256, U256};
use revm::bytecode::Bytecode;
use revm::context::TxEnv;
use revm::database::states::bundle_state::BundleRetention;
use revm::database::{CacheDB, EmptyDB, State};
use revm::database_interface::bal::EvmDatabaseError;
use revm::database_interface::DBErrorMarker;
use revm::primitives::hardfork::SpecId;
use revm::primitives::AddressMap;
use revm::state::{Account, AccountInfo};
use revm::{Context, Database, DatabaseCommit, ExecuteEvm, MainBuilder, MainContext};
use std::collections::{BTreeMap, HashMap};
use witness::primitives as plain;
use witness::record::{Cause, Sink, SinkError};
use witness::store::{Action, Append, Event, FlushAction, OpenAction, OpenEvent};
use witness::{replay_block, ReplayError, WitnessDb, WitnessRecorder, WitnessStore, WitnessWriter};

fn address(tail: [u8; 4]) -> Address {
    let mut bytes = [0u8; 20];
    bytes[16..].copy_from_slice(&tail);
    Address::from(bytes)
}

fn alice() -> Address {
    address([0, 0, 0xa1, 0x1c])
}

fn bob() -> Address {
    address([0, 0, 0x0b, 0x0b])
}

fn dave() -> Address {
    address([0, 0, 0xda, 0x7e])
}

fn counter() -> Address {
    address([0xc0, 0x04, 0x7e, 0x12])
}

fn reverter() -> Address {
    address([0x0e, 0x7e, 0x12, 0xe1])
}

fn caller() -> Address {
    address([0xca, 0x11, 0xe1, 0x00])
}

fn withdrawn_to() -> Address {
    address([0xd1, 0xd1, 0xd1, 0xd1])
}

fn coinbase() -> Address {
    address([0xc0, 0x1b, 0x6a, 0x5e])
}

/// PUSH1 0 SLOAD PUSH1 1 ADD PUSH1 0 SSTORE PUSH1 1 SLOAD POP STOP:
/// reads slots 0 and 1, bumps slot 0.
const COUNTER_CODE: &[u8] =
    &[0x60, 0, 0x54, 0x60, 1, 0x01, 0x60, 0, 0x55, 0x60, 1, 0x54, 0x50, 0x00];
/// PUSH1 0 SLOAD POP PUSH1 0 PUSH1 0 REVERT: reads slot 0, then reverts.
const REVERTER_CODE: &[u8] = &[0x60, 0, 0x54, 0x50, 0x60, 0, 0x60, 0, 0xfd];

/// CALL(gas, reverter, 0, 0, 0, 0, 0) POP; BALANCE(dave) POP; PUSH1 0 SLOAD POP STOP:
/// a read inside a frame that reverts, a cold account read, an own slot read.
fn caller_code() -> Vec<u8> {
    let mut code = vec![0x60, 0, 0x60, 0, 0x60, 0, 0x60, 0, 0x60, 0, 0x73];
    code.extend_from_slice(reverter().as_slice());
    code.extend_from_slice(&[0x5a, 0xf1, 0x50, 0x73]);
    code.extend_from_slice(dave().as_slice());
    code.extend_from_slice(&[0x31, 0x50, 0x60, 0, 0x54, 0x50, 0x00]);
    code
}

/// Init code: SLOAD 0 POP; SSTORE 0 = 1; return `COUNTER_CODE` as runtime.
fn creator_init_code() -> Vec<u8> {
    let prefix = [0x60, 0, 0x54, 0x50, 0x60, 1, 0x60, 0, 0x55];
    let len = COUNTER_CODE.len() as u8;
    let mut code = prefix.to_vec();
    let offset = (prefix.len() + 11) as u8;
    code.extend_from_slice(&[0x60, len, 0x60, offset, 0x60, 0, 0x39, 0x60, len, 0x60, 0, 0xf3]);
    code.extend_from_slice(COUNTER_CODE);
    code
}

fn contract(code: &[u8], balance: u64) -> AccountInfo {
    AccountInfo {
        balance: U256::from(balance),
        nonce: 1,
        code_hash: keccak256(code),
        code: Some(Bytecode::new_raw(Bytes::copy_from_slice(code))),
        ..Default::default()
    }
}

fn eoa(balance: u128) -> AccountInfo {
    AccountInfo { balance: U256::from(balance), nonce: 0, ..Default::default() }
}

fn genesis_db() -> CacheDB<EmptyDB> {
    let mut db = CacheDB::new(EmptyDB::default());
    db.insert_account_info(alice(), eoa(1_000_000_000_000_000_000));
    db.insert_account_info(bob(), eoa(1_000_000_000_000_000_000));
    db.insert_account_info(counter(), contract(COUNTER_CODE, 0));
    db.insert_account_storage(counter(), U256::from(0), U256::from(5)).unwrap();
    db.insert_account_storage(counter(), U256::from(1), U256::from(7)).unwrap();
    db.insert_account_info(reverter(), contract(REVERTER_CODE, 0));
    db.insert_account_storage(reverter(), U256::from(0), U256::from(9)).unwrap();
    db.insert_account_info(caller(), contract(&caller_code(), 0));
    db.insert_account_storage(caller(), U256::from(0), U256::from(11)).unwrap();
    db
}

fn tx(sender: Address, nonce: u64, to: TxKind, value: u64, input: Vec<u8>) -> TxEnv {
    TxEnv {
        caller: sender,
        chain_id: Some(1),
        nonce,
        gas_price: 10,
        gas_limit: 300_000,
        kind: to,
        value: U256::from(value),
        data: input.into(),
        ..Default::default()
    }
}

fn header(number: u64, parent: B256) -> Header {
    Header {
        parent_hash: parent,
        number,
        timestamp: 1_700_000_000 + number * 12,
        gas_limit: 30_000_000,
        base_fee_per_gas: Some(7),
        beneficiary: coinbase(),
        ..Default::default()
    }
}

#[derive(Clone)]
struct Block {
    header: Header,
    transactions: Vec<TxEnv>,
    withdrawals: Vec<(Address, u64)>,
}

/// The chain: three blocks whose headers still lack what execution decides
/// (gas used, receipts root, bloom).
fn blocks() -> Vec<Block> {
    let created = alice().create(2);
    let b1 = (
        vec![
            tx(alice(), 0, TxKind::Call(counter()), 0, vec![]),
            tx(alice(), 1, TxKind::Call(dave()), 1_000, vec![]),
            tx(alice(), 2, TxKind::Create, 0, creator_init_code()),
            tx(bob(), 0, TxKind::Call(caller()), 0, vec![]),
            tx(bob(), 1, TxKind::Call(reverter()), 0, vec![]),
        ],
        vec![(withdrawn_to(), 5), (alice(), 5)],
    );
    let b2 = (
        vec![
            tx(bob(), 2, TxKind::Call(counter()), 0, vec![]),
            tx(alice(), 3, TxKind::Call(created), 0, vec![]),
            tx(alice(), 4, TxKind::Call(withdrawn_to()), 1, vec![]),
        ],
        vec![],
    );
    let b3 = (
        vec![
            tx(alice(), 5, TxKind::Call(dave()), 1, vec![]),
            tx(bob(), 3, TxKind::Call(caller()), 0, vec![]),
            tx(alice(), 6, TxKind::Call(created), 0, vec![]),
        ],
        vec![(dave(), 1)],
    );
    let mut parent = B256::ZERO;
    [b1, b2, b3]
        .into_iter()
        .enumerate()
        .map(|(i, (transactions, withdrawals))| {
            let header = header(i as u64 + 1, parent);
            parent = header.hash_slow();
            Block { header, transactions, withdrawals }
        })
        .collect()
}

#[derive(Debug, Clone, PartialEq)]
struct BlockResult {
    receipts: Vec<Receipt>,
    gas_used: u64,
}

impl BlockResult {
    fn receipts_root(&self) -> B256 {
        let enveloped: Vec<ReceiptEnvelope> = self
            .receipts
            .iter()
            .map(|r| ReceiptEnvelope::Legacy(r.clone().into_with_bloom()))
            .collect();
        calculate_receipt_root(&enveloped)
    }

    fn logs_bloom(&self) -> Bloom {
        self.receipts.iter().fold(Bloom::default(), |bloom, r| bloom | r.bloom())
    }
}

/// Whether what execution produced is what the header says.
fn validate(block: &Block, result: &BlockResult) -> Result<(), String> {
    if block.header.gas_used != result.gas_used {
        return Err("gas used".to_string());
    }
    if block.header.receipts_root != result.receipts_root() {
        return Err("receipts root".to_string());
    }
    if block.header.logs_bloom != result.logs_bloom() {
        return Err("logs bloom".to_string());
    }
    Ok(())
}

/// Executes a block's transactions and withdrawals over `db`.
fn execute_block<D>(db: D, block: &Block) -> (Result<BlockResult, String>, D)
where
    D: Database + DatabaseCommit,
{
    let mut evm = Context::mainnet()
        .with_db(db)
        .modify_cfg_chained(|cfg| cfg.set_spec_and_mainnet_gas_params(SpecId::SHANGHAI))
        .modify_block_chained(|env| {
            env.number = U256::from(block.header.number);
            env.beneficiary = block.header.beneficiary;
            env.timestamp = U256::from(block.header.timestamp);
            env.gas_limit = block.header.gas_limit;
            env.basefee = block.header.base_fee_per_gas.unwrap();
            env.prevrandao = Some(block.header.mix_hash);
        })
        .build_mainnet();
    let mut receipts = Vec::new();
    let mut gas_used = 0;
    for tx in &block.transactions {
        match evm.transact(tx.clone()) {
            Ok(executed) => {
                gas_used += executed.result.tx_gas_used();
                receipts.push(Receipt {
                    status: Eip658Value::Eip658(executed.result.is_success()),
                    cumulative_gas_used: gas_used,
                    logs: executed.result.into_logs(),
                });
                evm.ctx.journaled_state.database.commit(executed.state);
            }
            Err(e) => return (Err(format!("{e:?}")), evm.ctx.journaled_state.database),
        }
    }
    let mut db = evm.ctx.journaled_state.database;
    for (to, gwei) in &block.withdrawals {
        let mut info = match db.basic(*to) {
            Ok(info) => info.unwrap_or_default(),
            Err(e) => return (Err(format!("{e:?}")), db),
        };
        info.balance += U256::from(*gwei) * U256::from(1_000_000_000u64);
        let account = Account::default().with_info(info).with_touched_mark();
        db.commit([(*to, account)].into_iter().collect());
    }
    (Ok(BlockResult { receipts, gas_used }), db)
}

/// A read the sink has no answer to, as an error that revm takes.
#[derive(Debug)]
struct Unexpected(SinkError);

impl std::fmt::Display for Unexpected {
    fn fmt(&self, f: &mut std::fmt::Formatter<'_>) -> std::fmt::Result {
        f.write_str(&format!("{:?}", self.0))
    }
}

impl std::error::Error for Unexpected {}

impl DBErrorMarker for Unexpected {}

#[derive(Debug)]
struct SinkDb(Sink);

impl Database for SinkDb {
    type Error = Unexpected;

    fn basic(&mut self, address: Address) -> Result<Option<AccountInfo>, Self::Error> {
        let info = self.0.basic(plain::Address(address.into_array())).map_err(Unexpected)?;
        Ok(info.map(account))
    }

    fn code_by_hash(&mut self, code_hash: B256) -> Result<Bytecode, Self::Error> {
        self.0.code_by_hash(plain::B256(code_hash.0)).map_err(Unexpected)
    }

    fn storage(&mut self, address: Address, index: U256) -> Result<U256, Self::Error> {
        let index = plain::U256 { limbs: index.into_limbs() };
        let value =
            self.0.storage(plain::Address(address.into_array()), index).map_err(Unexpected)?;
        Ok(U256::from_limbs(value.limbs))
    }

    fn block_hash(&mut self, number: u64) -> Result<B256, Self::Error> {
        self.0.block_hash(number).map_err(Unexpected)
    }
}

fn account(info: plain::AccountInfo) -> AccountInfo {
    AccountInfo {
        nonce: info.nonce,
        balance: U256::from_limbs(info.balance.limbs),
        code_hash: B256::from(info.code_hash.0),
        code: None,
        ..Default::default()
    }
}

fn plain_account(info: &AccountInfo) -> plain::AccountInfo {
    plain::AccountInfo {
        nonce: info.nonce,
        balance: plain::U256 { limbs: info.balance.into_limbs() },
        code_hash: plain::B256(info.code_hash.0),
    }
}

fn fresh_shadow(sink: Sink) -> State<SinkDb> {
    State::builder().with_database(SinkDb(sink)).build()
}

fn cause<T>(read: Result<T, EvmDatabaseError<Unexpected>>) -> Option<Cause> {
    match read {
        Ok(_) => None,
        Err(EvmDatabaseError::Database(Unexpected(e))) => Some(Cause::Read(e)),
        Err(other) => Some(Cause::Shadow(format!("{other:?}"))),
    }
}

/// The files of a store, in memory.
#[derive(Default)]
struct Files {
    index: Vec<u8>,
    waiting: Vec<u8>,
    segments: BTreeMap<u64, Vec<u8>>,
    open: u64,
}

impl Files {
    fn open_at(&mut self, next_block: u64) -> WitnessWriter {
        let mut opening = WitnessWriter::open(None, next_block).unwrap();
        loop {
            let event = match opening.action() {
                OpenAction::WriteIndex => {
                    self.index = opening.index().clone();
                    OpenEvent::Done
                }
                OpenAction::ProbeSegment { .. } => OpenEvent::Absent,
                OpenAction::Ready => return opening.into_writer(),
                other => panic!("{other:?}"),
            };
            opening.step(event).unwrap();
        }
    }

    fn run(&mut self, writer: &mut WitnessWriter, mut append: Append) {
        loop {
            let event = match writer.action(&append) {
                Action::OpenSegment { segment } => {
                    self.open = segment;
                    let position = self.segments.entry(segment).or_default().len() as u64;
                    Event::Length { position }
                }
                Action::WriteFrame => {
                    let file = self.segments.get_mut(&self.open).unwrap();
                    file.extend_from_slice(append.frame());
                    Event::Done
                }
                Action::WriteEntry { entry } => {
                    self.waiting.extend_from_slice(&entry.to_bytes());
                    Event::Done
                }
                Action::Finished => return,
                other => panic!("{other:?}"),
            };
            writer.step(&mut append, event).unwrap();
        }
    }

    fn flush(&mut self, actions: &[FlushAction]) {
        if actions.contains(&FlushAction::FlushIndex) {
            self.index.append(&mut self.waiting);
        }
    }

    fn witnesses(&self, count: u64) -> Vec<Vec<u8>> {
        let store = WitnessStore::open(&self.index).unwrap();
        assert_eq!(store.blocks(), count + 1, "block 0 plus the recorded blocks");
        (1..=count)
            .map(|n| {
                let extent = store.locate(n).unwrap().expect("the block read state");
                let at = extent.position as usize;
                let frame = &self.segments[&extent.segment][at..at + extent.len as usize];
                let mut out = Vec::new();
                store.read(n, frame, &mut out).unwrap();
                out
            })
            .collect()
    }
}

/// Records what a state answers, by way of a shadow.
struct Observer {
    recorder: WitnessRecorder,
    shadow: State<SinkDb>,
    files: Files,
}

impl Observer {
    fn new() -> Self {
        let mut files = Files::default();
        let recorder = WitnessRecorder::new(files.open_at(1));
        Self { recorder, shadow: fresh_shadow(Sink::new()), files }
    }

    fn cached(&self, address: Address) -> bool {
        self.shadow.cache.accounts.contains_key(&address)
    }

    fn begin_block(&mut self, number: u64) {
        let mut sink = Sink::new();
        self.recorder.begin_block(&mut sink, number);
        self.shadow = fresh_shadow(sink);
    }

    fn basic(&mut self, address: Address, info: Option<&AccountInfo>) {
        let cached = self.cached(address);
        let info = info.map(plain_account);
        if self.recorder.basic(&mut self.shadow.database.0, cached, info.as_ref()) {
            let failed = cause(self.shadow.basic(address));
            self.recorder.basic_offered(&mut self.shadow.database.0, failed);
        }
    }

    fn storage(&mut self, address: Address, index: U256, value: U256) {
        let cached = self.cached(address);
        let offer = self.recorder.storage(
            &mut self.shadow.database.0,
            cached,
            plain::Address(address.into_array()),
            plain::U256 { limbs: index.into_limbs() },
            plain::U256 { limbs: value.into_limbs() },
        );
        if offer {
            let failed = cause(Database::storage(&mut self.shadow, address, index));
            self.recorder.storage_offered(&mut self.shadow.database.0, failed);
        }
    }

    fn committed(&mut self, address: Address, account: &Account) {
        let cached = self.cached(address);
        if self.recorder.committed(cached, plain::Address(address.into_array())) {
            self.shadow.cache.apply_evm_state([(address, account.clone())], |_, _| {});
        }
    }

    fn end_block(&mut self) {
        let append = self.recorder.end_block(&self.shadow.database.0).expect("block recorded");
        self.files.run(self.recorder.writer_mut(), append);
        self.shadow.database.0.clear();
    }
}

/// A state whose answers and commits are observed.
struct Observed {
    state: State<CacheDB<EmptyDB>>,
    observer: Option<Observer>,
}

impl Database for Observed {
    type Error = <State<CacheDB<EmptyDB>> as Database>::Error;

    fn basic(&mut self, address: Address) -> Result<Option<AccountInfo>, Self::Error> {
        let info = self.state.basic(address)?;
        if let Some(observer) = &mut self.observer {
            observer.basic(address, info.as_ref());
        }
        Ok(info)
    }

    fn code_by_hash(&mut self, code_hash: B256) -> Result<Bytecode, Self::Error> {
        self.state.code_by_hash(code_hash)
    }

    fn storage(&mut self, address: Address, index: U256) -> Result<U256, Self::Error> {
        let value = Database::storage(&mut self.state, address, index)?;
        if let Some(observer) = &mut self.observer {
            observer.storage(address, index, value);
        }
        Ok(value)
    }

    fn block_hash(&mut self, number: u64) -> Result<B256, Self::Error> {
        self.state.block_hash(number)
    }
}

impl DatabaseCommit for Observed {
    fn commit(&mut self, changes: AddressMap<Account>) {
        if let Some(observer) = &mut self.observer {
            for (address, account) in &changes {
                observer.committed(*address, account);
            }
        }
        self.state.commit(changes);
    }
}

/// Executes the chain in one batch, recording if an observer is given, and
/// returns the results, every bytecode execution touched, which is what a
/// replay needs besides the witness, and the observer.
fn execute_batch(
    blocks: &[Block],
    observer: Option<Observer>,
) -> (Vec<BlockResult>, HashMap<B256, Bytecode>, Option<Observer>) {
    let state = State::builder().with_database(genesis_db()).with_bundle_update().build();
    let mut observed = Observed { state, observer };
    let mut results = Vec::new();
    for block in blocks {
        if let Some(observer) = &mut observed.observer {
            observer.begin_block(block.header.number);
        }
        let (result, db) = execute_block(observed, block);
        observed = db;
        results.push(result.expect("block executes"));
        if let Some(observer) = &mut observed.observer {
            observer.end_block();
        }
    }
    if let Some(observer) = &mut observed.observer {
        let actions = observer.recorder.finish().expect("witness flushed");
        observer.files.flush(&actions);
    }
    // The genesis contracts came in with their accounts; the ones the chain
    // created are in the bundle.
    let mut codes: HashMap<B256, Bytecode> =
        [COUNTER_CODE.to_vec(), REVERTER_CODE.to_vec(), caller_code()]
            .into_iter()
            .map(|code| (keccak256(&code), Bytecode::new_raw(code.into())))
            .collect();
    observed.state.merge_transitions(BundleRetention::Reverts);
    codes.extend(observed.state.bundle_state.contracts);
    (results, codes, observed.observer)
}

/// Puts what execution decided into the headers, so that there is something to
/// check against.
fn seal_headers(blocks: Vec<Block>, results: &[BlockResult]) -> Vec<Block> {
    let mut parent = B256::ZERO;
    blocks
        .into_iter()
        .zip(results)
        .map(|(mut block, result)| {
            block.header.parent_hash = parent;
            block.header.gas_used = result.gas_used;
            block.header.receipts_root = result.receipts_root();
            block.header.logs_bloom = result.logs_bloom();
            parent = block.header.hash_slow();
            block
        })
        .collect()
}

/// The error of a replay, as one that revm takes.
#[derive(Debug)]
struct Replayed(ReplayError);

impl std::fmt::Display for Replayed {
    fn fmt(&self, f: &mut std::fmt::Formatter<'_>) -> std::fmt::Result {
        f.write_str(&format!("{:?}", self.0))
    }
}

impl std::error::Error for Replayed {}

impl DBErrorMarker for Replayed {}

struct ReplayDb<'a, C, H>(WitnessDb<'a, C, H>);

impl<C, H> Database for ReplayDb<'_, C, H>
where
    C: FnMut(plain::B256) -> Option<Bytecode>,
    H: FnMut(u64) -> Option<plain::B256>,
{
    type Error = Replayed;

    fn basic(&mut self, address: Address) -> Result<Option<AccountInfo>, Self::Error> {
        let info = self.0.basic(plain::Address(address.into_array())).map_err(Replayed)?;
        Ok(info.map(account))
    }

    fn code_by_hash(&mut self, code_hash: B256) -> Result<Bytecode, Self::Error> {
        self.0.code_by_hash(plain::B256(code_hash.0)).map_err(Replayed)
    }

    fn storage(&mut self, address: Address, index: U256) -> Result<U256, Self::Error> {
        let index = plain::U256 { limbs: index.into_limbs() };
        let value =
            self.0.storage(plain::Address(address.into_array()), index).map_err(Replayed)?;
        Ok(U256::from_limbs(value.limbs))
    }

    fn block_hash(&mut self, number: u64) -> Result<B256, Self::Error> {
        Ok(B256::from(self.0.block_hash(number).map_err(Replayed)?.0))
    }
}

/// Replays one block alone, from nothing but its witness and the codes.
fn replay(
    block: &Block,
    witness: &[u8],
    codes: &HashMap<B256, Bytecode>,
) -> Result<BlockResult, ReplayError> {
    replay_block(
        |db| {
            let state = State::builder().with_database(ReplayDb(db)).build();
            let (result, state) = execute_block(state, block);
            (result, state.database.0)
        },
        witness,
        |hash: plain::B256| codes.get(&B256::from(hash.0)).cloned(),
        |_: u64| -> Option<plain::B256> { None },
    )
}

#[test]
fn a_recorded_chain_replays_block_by_block_from_a_fresh_state() {
    // A first pass tells us what the headers must say.
    let blocks = seal_headers(blocks(), &execute_batch(&blocks(), None).0);

    // Record.
    let (recorded, codes, observer) = execute_batch(&blocks, Some(Observer::new()));
    let files = observer.unwrap().files;
    assert!(codes.len() >= 4, "the three genesis contracts and the created one: {}", codes.len());
    assert!(
        recorded[0].receipts.iter().any(|r| !r.status()),
        "block 1 carries a failed transaction"
    );
    for (block, result) in blocks.iter().zip(&recorded) {
        assert!(
            result.receipts.iter().any(|r| r.status()),
            "block {} has successes",
            block.header.number
        );
        validate(block, result).expect("the recording run passes post-execution validation");
    }

    // Replay each block alone, from nothing but its witness and the codes.
    let witnesses = files.witnesses(blocks.len() as u64);
    for ((block, witness), recorded) in blocks.iter().zip(&witnesses).zip(&recorded) {
        let number = block.header.number;
        assert!(!witness.is_empty(), "block {number} read state");
        let result = match replay(block, witness, &codes) {
            Ok(result) => result,
            Err(err) => panic!("block {number} replays: {err:?}"),
        };
        assert_eq!(result.receipts, recorded.receipts, "block {number}");
        assert_eq!(result.gas_used, recorded.gas_used, "block {number}");
        validate(block, &result).expect("the replay passes post-execution validation");
    }
}

#[test]
fn the_wrong_witness_does_not_pass_as_the_right_one() {
    let blocks = seal_headers(blocks(), &execute_batch(&blocks(), None).0);
    let (recorded, codes, observer) = execute_batch(&blocks, Some(Observer::new()));
    let witnesses = observer.unwrap().files.witnesses(blocks.len() as u64);

    // Block 2 against block 1's witness: the stream runs out, ends with
    // bytes left over, or yields receipts the header refuses.
    match replay(&blocks[1], &witnesses[0], &codes) {
        Err(ReplayError::Stream(_) | ReplayError::Unconsumed(_) | ReplayError::Execution(_)) => {}
        Err(other) => panic!("unexpected error {other:?}"),
        Ok(result) => {
            assert!(
                result.receipts != recorded[1].receipts || validate(&blocks[1], &result).is_err(),
                "a foreign witness produced the block's own receipts"
            );
        }
    }

    // A flipped byte in a value changes what the block computes or breaks
    // the stream; it never validates.
    let mut tampered = witnesses[0].clone();
    let last_value = tampered.len() - 1;
    tampered[last_value] ^= 0x01;
    let outcome = replay(&blocks[0], &tampered, &codes);
    let validated = outcome.ok().filter(|result| validate(&blocks[0], result).is_ok());
    assert!(
        validated.is_none() || validated.unwrap().receipts != recorded[0].receipts,
        "tampering went unnoticed"
    );
}
