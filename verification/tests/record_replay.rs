//! Recording what a block reads, and replaying it.
use std::collections::HashMap;
use witness::primitives::{AccountInfo, Address, B256, U256};
use witness::record::{Cause, Failure, RecordError, Sink, SinkError};
use witness::replay::{replay_outcome, ReadFailure};
use witness::store::{Action, Append, Event, FlushAction, OpenAction, OpenEvent};
use witness::{replay_block, ReplayError, StoreError, StreamError};
use witness::{WitnessDb, WitnessRecorder, WitnessWriter};

fn account(nonce: u64, balance: u64) -> AccountInfo {
    AccountInfo { nonce, balance: slot(balance), code_hash: B256([3; 32]) }
}

fn slot(value: u64) -> U256 {
    U256 { limbs: [value, 0, 0, 0] }
}

fn address(n: u8) -> Address {
    Address([n; 20])
}

fn writer(next_block: u64) -> WitnessWriter {
    let mut opening = WitnessRecorder::open(None, next_block).unwrap();
    loop {
        let event = match opening.action() {
            OpenAction::WriteIndex => OpenEvent::Done,
            OpenAction::ProbeSegment { .. } => OpenEvent::Absent,
            OpenAction::Ready => return opening.into_writer(),
            other => panic!("{other:?}"),
        };
        opening.step(event).unwrap();
    }
}

fn recorder() -> WitnessRecorder {
    WitnessRecorder::new(writer(1))
}

/// Runs an append whose actions all succeed; what it wrote to the segment.
fn run(recorder: &mut WitnessRecorder, mut append: Append, position: u64) -> Vec<u8> {
    let mut written = Vec::new();
    loop {
        let event = match recorder.writer().action(&append) {
            Action::OpenSegment { .. } => Event::Length { position },
            Action::WriteFrame => {
                written.extend_from_slice(append.frame());
                Event::Done
            }
            Action::Finished => return written,
            _ => Event::Done,
        };
        recorder.writer_mut().step(&mut append, event).unwrap();
    }
}

/// A fresh state's cache, as far as these tests need one.
#[derive(Default)]
struct Shadow {
    accounts: HashMap<u8, Option<AccountInfo>>,
    slots: HashMap<(u8, u64), U256>,
}

impl Shadow {
    fn basic(&mut self, recorder: &mut WitnessRecorder, sink: &mut Sink, who: u8, info: Option<AccountInfo>) {
        let cached = self.accounts.contains_key(&who);
        if recorder.basic(sink, cached, info.as_ref()) {
            let read = sink.basic(address(who));
            if let Ok(info) = read {
                self.accounts.insert(who, info);
            }
            recorder.basic_offered(sink, read.err().map(Cause::Read));
        }
    }

    fn storage(&mut self, recorder: &mut WitnessRecorder, sink: &mut Sink, who: u8, key: u64, value: U256) {
        let cached = self.accounts.contains_key(&who);
        if recorder.storage(sink, cached, address(who), slot(key), value) {
            let mut failed = None;
            if !self.slots.contains_key(&(who, key)) {
                match sink.storage(address(who), slot(key)) {
                    Ok(value) => {
                        self.slots.insert((who, key), value);
                    }
                    Err(e) => failed = Some(Cause::Read(e)),
                }
            }
            recorder.storage_offered(sink, failed);
        }
    }
}

#[test]
fn a_recorded_block_replays_from_its_witness() {
    let mut recorder = recorder();
    let mut sink = Sink::new();
    let mut shadow = Shadow::default();
    recorder.begin_block(&mut sink, 1);
    shadow.basic(&mut recorder, &mut sink, 1, Some(account(5, 70)));
    shadow.storage(&mut recorder, &mut sink, 1, 0, slot(9));
    shadow.basic(&mut recorder, &mut sink, 1, Some(account(5, 70)));
    shadow.storage(&mut recorder, &mut sink, 1, 0, slot(9));
    shadow.basic(&mut recorder, &mut sink, 2, None);
    assert!(recorder.committed(true, address(1)));
    shadow.storage(&mut recorder, &mut sink, 1, 1, slot(0));
    let recorded = sink.stream().clone();
    let append = recorder.end_block(&sink).unwrap();
    let frame = run(&mut recorder, append, 0);
    sink.clear();
    assert!(sink.stream().is_empty());
    assert_eq!(recorder.writer().blocks(), 2);
    assert_eq!(frame[0], 0);
    let witness = &frame[1..];
    assert_eq!(witness, &recorded[..]);

    let codes = |hash: B256| if hash == B256([3; 32]) { Some("code") } else { None };
    let hashes = |number: u64| if number == 4 { Some(B256([4; 32])) } else { None };
    let outcome = replay_block(
        |mut db: WitnessDb<'_, _, _>| {
            assert_eq!(db.basic(address(1)).unwrap(), Some(account(5, 70)));
            assert_eq!(db.code_by_hash(B256([3; 32])).unwrap(), "code");
            assert_eq!(db.storage(address(1), slot(0)).unwrap(), slot(9));
            assert_eq!(db.block_hash(4).unwrap(), B256([4; 32]));
            assert_eq!(db.basic(address(2)).unwrap(), None);
            assert_eq!(db.storage(address(1), slot(1)).unwrap(), slot(0));
            assert_eq!(db.reader().consumed(), witness.len());
            (Ok("receipts"), db)
        },
        witness,
        codes,
        hashes,
    );
    assert_eq!(outcome.unwrap(), "receipts");
}

#[test]
fn another_execution_than_the_recorded_one_is_noticed() {
    let witness = [1u8, 5, 0, 1, 6];
    let codes = |_: B256| -> Option<u8> { None };
    let hashes = |_: u64| -> Option<B256> { None };

    // It reads less.
    let outcome = replay_block(
        |mut db: WitnessDb<'_, _, _>| {
            db.storage(address(1), slot(0)).unwrap();
            (Ok(()), db)
        },
        &witness,
        codes,
        hashes,
    );
    assert!(matches!(outcome, Err(ReplayError::Unconsumed(3))));

    // It reads more, and the executor gives up.
    let outcome = replay_block(
        |mut db: WitnessDb<'_, _, _>| {
            for _ in 0..3 {
                db.storage(address(1), slot(0)).unwrap();
            }
            let more = db.storage(address(1), slot(0));
            assert!(matches!(
                more,
                Err(ReplayError::Stream(StreamError::Exhausted { consumed: 5 }))
            ));
            (Err::<(), String>("no more".to_string()), db)
        },
        &witness,
        codes,
        hashes,
    );
    let ran_out = StreamError::Exhausted { consumed: 5 };
    assert!(matches!(outcome, Err(ReplayError::Stream(e)) if e == ran_out));

    // Another executor does not even notice.
    let outcome = replay_block(
        |mut db: WitnessDb<'_, _, _>| {
            for _ in 0..4 {
                let _ = db.storage(address(1), slot(0));
            }
            let _ = db.code_by_hash(B256([8; 32]));
            (Ok(()), db)
        },
        &witness,
        codes,
        hashes,
    );
    assert!(matches!(outcome, Err(ReplayError::Stream(e)) if e == ran_out), "the first failure");

    // The executor gives up on its own.
    let outcome = replay_block(
        |db: WitnessDb<'_, _, _>| (Err::<(), String>("bad block".to_string()), db),
        &witness,
        codes,
        hashes,
    );
    assert!(matches!(outcome, Err(ReplayError::Execution(why)) if why == "bad block"));

    // A code or a block hash is missing.
    let outcome = replay_block(
        |mut db: WitnessDb<'_, _, _>| {
            let why = format!("{:?}", db.code_by_hash(B256([8; 32])));
            (Err::<(), String>(why), db)
        },
        &witness,
        codes,
        hashes,
    );
    assert!(matches!(outcome, Err(ReplayError::MissingCode(hash)) if hash == B256([8; 32])));
    let outcome = replay_block(
        |mut db: WitnessDb<'_, _, _>| {
            let why = format!("{:?}", db.block_hash(77));
            (Err::<(), String>(why), db)
        },
        &witness,
        codes,
        hashes,
    );
    assert!(matches!(outcome, Err(ReplayError::MissingBlockHash(77))));

    let mut db = WitnessDb::new(&witness, codes, hashes);
    assert!(db.failure().is_none());
    assert!(matches!(
        db.basic(address(1)),
        Err(ReplayError::Stream(StreamError::Malformed { at: 0, what: "nonce" }))
    ));
    assert!(matches!(
        db.code_by_hash::<u8>(B256([8; 32])),
        Err(ReplayError::MissingCode(hash)) if hash == B256([8; 32])
    ));
    assert!(matches!(db.block_hash(77), Err(ReplayError::MissingBlockHash(77))));
    assert!(matches!(
        db.failure(),
        Some(ReadFailure::Stream(StreamError::Malformed { at: 0, what: "nonce" }))
    ));
}

#[test]
fn a_replay_is_judged_by_its_reads_first() {
    assert!(matches!(replay_outcome(Ok(3), None, 0), Ok(3)));
    assert!(matches!(replay_outcome(Ok(3), None, 9), Err(ReplayError::Unconsumed(9))));
    let refused = replay_outcome::<u8>(Err("bad block".to_string()), None, 9);
    assert!(matches!(refused, Err(ReplayError::Execution(why)) if why == "bad block"));
    let ran_out = StreamError::Exhausted { consumed: 2 };
    let failed = Some(ReadFailure::Stream(ran_out));
    let refused = replay_outcome::<u8>(Err("bad block".to_string()), failed, 0);
    assert!(matches!(refused, Err(ReplayError::Stream(e)) if e == ran_out));
    assert!(matches!(replay_outcome(Ok(3), failed, 0), Err(ReplayError::Stream(_))));
    let failed = Some(ReadFailure::MissingBlockHash(5));
    assert!(matches!(replay_outcome(Ok(3), failed, 9), Err(ReplayError::MissingBlockHash(5))));
    let error = ReplayError::from(ran_out);
    assert!(matches!(error, ReplayError::Stream(e) if e == ran_out));
}

#[test]
fn a_sink_answers_only_what_is_staged() {
    let mut sink = Sink::new();
    assert_eq!(sink.basic(address(1)), Err(SinkError::Account(address(1))));
    assert_eq!(
        sink.storage(address(1), slot(2)),
        Err(SinkError::Slot(address(1), slot(2)))
    );
    assert_eq!(sink.code_by_hash::<u8>(B256([1; 32])), Err(SinkError::Code(B256([1; 32]))));
    assert_eq!(sink.block_hash::<B256>(7), Err(SinkError::BlockHash(7)));
    assert!(sink.stream().is_empty());

    let mut recorder = recorder();
    recorder.begin_block(&mut sink, 1);
    assert!(recorder.basic(&mut sink, false, None));
    assert_eq!(sink.basic(address(1)), Ok(None));
    assert_eq!(sink.basic(address(1)), Err(SinkError::Account(address(1))), "once");
    assert_eq!(sink.stream(), &[0]);
    assert!(recorder.storage(&mut sink, true, address(1), slot(0), slot(300)));
    recorder.storage_offered(&mut sink, None);
    assert!(sink.storage(address(1), slot(0)).is_err(), "staged no longer");
    assert_eq!(sink.stream(), &[0]);
}

#[test]
fn an_address_has_one_account_entry_in_a_block() {
    let mut recorder = recorder();
    let mut sink = Sink::new();
    for block in [1, 2] {
        let mut shadow = Shadow::default();
        recorder.begin_block(&mut sink, block);
        shadow.basic(&mut recorder, &mut sink, 1, None);
        shadow.basic(&mut recorder, &mut sink, 1, Some(account(1, 1)));
        shadow.basic(&mut recorder, &mut sink, 2, None);
        shadow.basic(&mut recorder, &mut sink, 1, None);
        assert_eq!(sink.stream(), &[0, 0], "block {block}");
        let append = recorder.end_block_if_fits(&sink).unwrap().unwrap();
        run(&mut recorder, append, 0);
    }
    assert!(recorder.finish().is_ok());
}

#[test]
fn nothing_is_recorded_outside_a_block() {
    let mut recorder = recorder();
    let mut sink = Sink::new();
    assert!(!recorder.basic(&mut sink, false, Some(&account(1, 1))));
    assert!(!recorder.storage(&mut sink, false, address(1), slot(0), slot(1)));
    assert!(!recorder.committed(false, address(1)));
    assert!(matches!(recorder.end_block(&sink), Err(RecordError::NotBegun)));
    assert!(matches!(recorder.end_block_if_fits(&sink), Err(RecordError::NotBegun)));
    assert!(recorder.finish().is_ok());
    assert!(sink.basic(address(1)).is_err());
}

#[test]
fn a_slot_of_an_unread_account_fails_the_block() {
    let mut recorder = recorder();
    let mut sink = Sink::new();
    recorder.begin_block(&mut sink, 1);
    assert!(!recorder.storage(&mut sink, false, address(6), slot(2), slot(1)));
    assert!(!recorder.committed(false, address(7)), "a later failure");
    match recorder.end_block(&sink) {
        Err(RecordError::Failed(Failure { block: Some(1), cause: Cause::Read(e) })) => {
            assert_eq!(e, SinkError::Slot(address(6), slot(2)));
        }
        other => panic!("{other:?}"),
    }
    assert_eq!(recorder.writer().blocks(), 1);
    assert!(matches!(recorder.end_block(&sink), Err(RecordError::NotBegun)));
    assert!(recorder.finish().is_ok(), "the failure was reported");
}

#[test]
fn a_commit_of_an_unread_account_fails_the_block() {
    let mut recorder = recorder();
    let mut sink = Sink::new();
    recorder.begin_block(&mut sink, 1);
    assert!(!recorder.committed(false, address(7)));
    assert!(matches!(
        recorder.finish(),
        Err(RecordError::Failed(Failure { block: Some(1), cause: Cause::Committed(who) }))
            if who == address(7)
    ));
}

#[test]
fn a_block_that_never_ended_fails_the_next() {
    let mut recorder = recorder();
    let mut sink = Sink::new();
    recorder.begin_block(&mut sink, 1);
    assert!(recorder.basic(&mut sink, false, None));
    sink.basic(address(1)).unwrap();
    recorder.begin_block(&mut sink, 2);
    assert!(sink.stream().is_empty());
    assert!(matches!(
        recorder.end_block(&sink),
        Err(RecordError::Failed(Failure { block: Some(2), cause: Cause::NeverEnded(1) }))
    ));
}

#[test]
fn what_the_shadow_fails_on_fails_the_block() {
    let mut recorder = recorder();
    let mut sink = Sink::new();
    recorder.begin_block(&mut sink, 1);
    assert!(recorder.basic(&mut sink, false, None));
    recorder.basic_offered(&mut sink, Some(Cause::Shadow("broken".to_string())));
    match recorder.end_block(&sink) {
        Err(RecordError::Failed(Failure { block: Some(1), cause: Cause::Shadow(why) })) => {
            assert_eq!(why, "broken");
        }
        other => panic!("{other:?}"),
    }
}

#[test]
fn the_store_refuses_a_block_out_of_order() {
    let mut recorder = recorder();
    let mut sink = Sink::new();
    recorder.begin_block(&mut sink, 3);
    assert!(matches!(
        recorder.end_block(&sink),
        Err(RecordError::Store(StoreError::OutOfOrder { expected: 1, given: 3 }))
    ));
}

#[test]
fn an_empty_block_has_an_empty_witness() {
    let mut recorder = recorder();
    let mut sink = Sink::new();
    recorder.begin_block(&mut sink, 1);
    let append = recorder.end_block(&sink).unwrap();
    assert!(run(&mut recorder, append, 0).is_empty());
    assert_eq!(recorder.writer().blocks(), 2);
    assert_eq!(
        recorder.finish().unwrap(),
        [FlushAction::FlushIndex, FlushAction::SyncIndex]
    );
}
