//! Recording a witness while a block executes.
//!
//! An execution runs blocks through one long-lived state whose cache carries
//! values from block to block. A re-executor starts every block with a fresh
//! state, so the reads *it* will send to its database are not the ones that
//! the long-lived state sends to its own: a value cached since an earlier
//! block is read from the cache, and never seen below it.
//!
//! The recorder therefore works with a fresh state per block, the *shadow*,
//! over a database that hands back whatever value the long-lived state just
//! answered and appends it to the stream as it does so: the [`Sink`]. Every
//! read that the long-lived state answers is offered to the shadow; the
//! shadow's own cache decides whether that read reaches the sink, which is
//! precisely the decision that the re-executor's fresh state will make.
//!
//! The shadow is the driver's. It asks the [`WitnessRecorder`] what to do about
//! each read and commit, and tells it what the shadow made of a read that was
//! offered. Any breach of what the shadow expects (a slot read for an account
//! it never saw, a commit for one) fails the block.
use crate::primitives::{account_view, Account, AccountInfo, Address, B256, U256};
use crate::store::{
    appends, appends_if_fits, flush_actions, frame_of, has_room_for, index_content, longest_frame,
    opens, Append, FlushAction, Opening, StoreError, WitnessWriter, Writer,
};
use crate::stream::{
    account_entry, answers, law_recorded_values_read_back, put_account, put_slot, questions_of,
    slot_entry, stream_of, StreamError, Value,
};
use vstd::prelude::*;

verus! {

/// The shadow's database: answers with the value staged for it and records
/// what it answered. Asked for anything not staged, it errs: that is a read
/// the recorder did not expect and cannot represent.
#[derive(Debug)]
pub struct Sink {
    account: Option<Option<AccountInfo>>,
    slot: Option<U256>,
    stream: Vec<u8>,
}

/// The content of a [`Sink`].
#[verifier::ext_equal]
pub struct SinkState {
    /// The account that is staged.
    pub account: Option<Option<Account>>,
    /// The slot's value that is staged.
    pub slot: Option<nat>,
    /// What was recorded.
    pub stream: Seq<u8>,
}

/// A read that a [`Sink`] has no answer to.
#[derive(Debug, Clone, Copy, PartialEq, Eq)]
pub enum SinkError {
    /// The account was read before any read of it reached the recorder.
    Account(Address),
    /// The slot was read before any read of it reached the recorder.
    Slot(Address, U256),
    /// The shadow has no business with code.
    Code(B256),
    /// The shadow has no business with block hashes.
    BlockHash(u64),
}

impl View for Sink {
    type V = SinkState;

    closed spec fn view(&self) -> SinkState {
        SinkState {
            account: match self.account {
                Some(info) => Some(account_view(info)),
                None => None,
            },
            slot: match self.slot {
                Some(value) => Some(value@),
                None => None,
            },
            stream: self.stream@,
        }
    }
}

impl SinkState {
    /// A sink with nothing staged or recorded.
    pub open spec fn empty() -> SinkState {
        SinkState { account: None, slot: None, stream: Seq::empty() }
    }

    /// The sink after it answered for an account.
    pub open spec fn after_basic(self) -> SinkState {
        match self.account {
            Some(account) => SinkState {
                account: None,
                stream: self.stream + account_entry(account),
                ..self
            },
            None => self,
        }
    }

    /// The sink after it answered for a slot.
    pub open spec fn after_storage(self) -> SinkState {
        match self.slot {
            Some(value) => SinkState {
                slot: None,
                stream: self.stream + slot_entry(value),
                ..self
            },
            None => self,
        }
    }
}

impl Sink {
    /// A sink with nothing staged or recorded.
    pub fn new() -> (sink: Self)
        ensures
            sink@ == SinkState::empty(),
    {
        let sink = Sink { account: None, slot: None, stream: Vec::new() };
        assert(sink@ =~= SinkState::empty());
        sink
    }

    /// What was recorded.
    pub fn stream(&self) -> (stream: &Vec<u8>)
        ensures
            stream@ == self@.stream,
    {
        &self.stream
    }

    /// The account that is staged, which it records.
    pub fn basic(&mut self, address: Address) -> (read: Result<Option<AccountInfo>, SinkError>)
        ensures
            final(self)@ == old(self)@.after_basic(),
            match old(self)@.account {
                Some(account) => read is Ok && account_view(read->Ok_0) == account,
                None => read == Err::<Option<AccountInfo>, SinkError>(SinkError::Account(address)),
            },
    {
        match self.account.take() {
            None => Err(SinkError::Account(address)),
            Some(info) => {
                put_account(&mut self.stream, info.as_ref());
                Ok(info)
            },
        }
    }

    /// Never the code of a hash.
    pub fn code_by_hash<T>(&mut self, code_hash: B256) -> (read: Result<T, SinkError>)
        ensures
            read == Err::<T, SinkError>(SinkError::Code(code_hash)),
            final(self)@ == old(self)@,
    {
        Err(SinkError::Code(code_hash))
    }

    /// The value that is staged, which it records.
    pub fn storage(&mut self, address: Address, index: U256) -> (read: Result<U256, SinkError>)
        ensures
            final(self)@ == old(self)@.after_storage(),
            match old(self)@.slot {
                Some(value) => read is Ok && (read->Ok_0)@ == value,
                None => read == Err::<U256, SinkError>(SinkError::Slot(address, index)),
            },
    {
        match self.slot.take() {
            None => Err(SinkError::Slot(address, index)),
            Some(value) => {
                put_slot(&mut self.stream, value);
                Ok(value)
            },
        }
    }

    /// Never the hash of a block.
    pub fn block_hash<T>(&mut self, number: u64) -> (read: Result<T, SinkError>)
        ensures
            read == Err::<T, SinkError>(SinkError::BlockHash(number)),
            final(self)@ == old(self)@,
    {
        Err(SinkError::BlockHash(number))
    }

    /// Forgets what was recorded, once it is in the store.
    pub fn clear(&mut self)
        ensures
            final(self)@ == (SinkState { stream: Seq::empty(), ..old(self)@ }),
    {
        self.stream.clear();
        assert(self@.stream =~= Seq::empty());
    }
}

/// What a recording failed on.
#[derive(Debug)]
pub enum Cause {
    /// The block began before this one ended.
    NeverEnded(u64),
    /// The shadow asked for what was not staged.
    Read(SinkError),
    /// The account was committed without ever being read.
    Committed(Address),
    /// The shadow failed on its own account.
    Shadow(String),
}

/// A recording that failed.
#[derive(Debug)]
pub struct Failure {
    /// The block that was recorded.
    pub block: Option<u64>,
    /// What it failed on.
    pub cause: Cause,
}

/// Why the record of a block is not in the store.
#[derive(Debug)]
pub enum RecordError {
    /// The end of a block that never began.
    NotBegun,
    /// The recording failed.
    Failed(Failure),
    /// The store refused the witness.
    Store(StoreError),
}

/// The state of a recorder.
pub struct RecorderState {
    pub writer: Writer,
    /// The block that is being recorded.
    pub block: Option<u64>,
    /// What went wrong first.
    pub failure: Option<Failure>,
}

impl RecorderState {
    /// The recorder after something else went wrong.
    pub open spec fn failing(self, cause: Cause) -> RecorderState {
        RecorderState {
            failure: if self.failure is Some {
                self.failure
            } else {
                Some(Failure { block: self.block, cause })
            },
            ..self
        }
    }

    /// The recorder after something may have gone wrong.
    pub open spec fn told(self, failed: Option<Cause>) -> RecorderState {
        match failed {
            Some(cause) => self.failing(cause),
            None => self,
        }
    }

    /// Whether a record of `len` bytes can be appended at the end of the block,
    /// if one is to be.
    pub open spec fn ends_with_room(self, len: int) -> bool {
        self.block is Some && self.failure is None ==> has_room_for(
            self.writer,
            self.block->0 as int,
            longest_frame(len),
        )
    }

    /// The recorder after block `number` began.
    pub open spec fn begun(self, number: u64) -> RecorderState {
        let next = RecorderState { block: Some(number), ..self };
        match self.block {
            Some(open) => next.failing(Cause::NeverEnded(open)),
            None => next,
        }
    }
}

/// Records the witness of every block that is executed, into a
/// [`WitnessWriter`].
#[derive(Debug)]
pub struct WitnessRecorder {
    writer: WitnessWriter,
    block: Option<u64>,
    failure: Option<Failure>,
}

impl View for WitnessRecorder {
    type V = RecorderState;

    closed spec fn view(&self) -> RecorderState {
        RecorderState { writer: self.writer@, block: self.block, failure: self.failure }
    }
}

impl WitnessRecorder {
    /// Opens a store for recording into it, resuming at `next_block`. `index`
    /// is what its index file holds, if there is one.
    pub fn open(index: Option<&[u8]>, next_block: u64) -> (opening: Result<Opening, StoreError>)
        ensures
            opens(index_content(index), next_block as int, opening),
    {
        WitnessWriter::open(index, next_block)
    }

    /// A recorder writing to `writer`.
    pub fn new(writer: WitnessWriter) -> (recorder: Self)
        ensures
            recorder@ == (RecorderState { writer: writer@, block: None, failure: None }),
    {
        Self { writer, block: None, failure: None }
    }

    /// The writer, to look at what has been recorded.
    pub fn writer(&self) -> (writer: &WitnessWriter)
        ensures
            writer@ == self@.writer,
    {
        &self.writer
    }

    /// The writer, to go on with an append.
    pub fn writer_mut(&mut self) -> (writer: &mut WitnessWriter)
        ensures
            writer@ == old(self)@.writer,
            final(self)@ == (RecorderState { writer: final(writer)@, ..old(self)@ }),
    {
        &mut self.writer
    }

    /// Notes what went wrong, unless something did before.
    fn fail(&mut self, cause: Cause)
        ensures
            final(self)@ == old(self)@.failing(cause),
    {
        if self.failure.is_none() {
            self.failure = Some(Failure { block: self.block, cause });
        }
    }

    /// Block `number` is about to execute: the shadow starts afresh, and so
    /// does its sink.
    pub fn begin_block(&mut self, sink: &mut Sink, number: u64)
        ensures
            final(self)@ == old(self)@.begun(number),
            final(sink)@ == SinkState::empty(),
            final(self)@.block == Some(number),
            final(self)@.writer == old(self)@.writer,
            final(sink)@.account is None,
            final(sink)@.slot is None,
            final(sink)@.stream.len() == 0,
    {
        let open = self.block;
        self.block = Some(number);
        if let Some(open) = open {
            self.fail(Cause::NeverEnded(open));
        }
        sink.account = None;
        sink.slot = None;
        sink.stream.clear();
        assert(sink@ =~= SinkState::empty());
    }

    /// An account was read as `info`; `cached` says whether the shadow has it.
    /// Whether the shadow is to be asked for it: then it is staged, and
    /// [`WitnessRecorder::basic_offered`] is to follow.
    pub fn basic(&self, sink: &mut Sink, cached: bool, info: Option<&AccountInfo>) -> (offer: bool)
        ensures
            offer == (self@.block is Some && !cached),
            final(sink)@ == if offer {
                SinkState {
                    account: Some(
                        match info {
                            Some(info) => Some(info@),
                            None => None,
                        },
                    ),
                    ..old(sink)@
                }
            } else {
                old(sink)@
            },
    {
        if self.block.is_none() || cached {
            return false;
        }
        sink.account = Some(
            match info {
                Some(info) => Some(*info),
                None => None,
            },
        );
        true
    }

    /// The shadow was asked for the account that was staged, and failed or
    /// did not.
    pub fn basic_offered(&mut self, sink: &mut Sink, failed: Option<Cause>)
        ensures
            final(self)@ == old(self)@.told(failed),
            final(sink)@ == (SinkState { account: None, ..old(sink)@ }),
    {
        if let Some(cause) = failed {
            self.fail(cause);
        }
        sink.account = None;
    }

    /// A slot was read as `value`; `cached` says whether the shadow has its
    /// account. Whether the shadow is to be asked for it: then it is staged,
    /// and [`WitnessRecorder::storage_offered`] is to follow.
    pub fn storage(
        &mut self,
        sink: &mut Sink,
        cached: bool,
        address: Address,
        index: U256,
        value: U256,
    ) -> (offer: bool)
        ensures
            offer == (old(self)@.block is Some && cached),
            final(self)@ == if old(self)@.block is Some && !cached {
                old(self)@.failing(Cause::Read(SinkError::Slot(address, index)))
            } else {
                old(self)@
            },
            final(sink)@ == if offer {
                SinkState { slot: Some(value@), ..old(sink)@ }
            } else {
                old(sink)@
            },
    {
        if self.block.is_none() {
            return false;
        }
        if !cached {
            self.fail(Cause::Read(SinkError::Slot(address, index)));
            return false;
        }
        sink.slot = Some(value);
        true
    }

    /// The shadow was asked for the slot that was staged, and failed or did
    /// not.
    pub fn storage_offered(&mut self, sink: &mut Sink, failed: Option<Cause>)
        ensures
            final(self)@ == old(self)@.told(failed),
            final(sink)@ == (SinkState { slot: None, ..old(sink)@ }),
    {
        if let Some(cause) = failed {
            self.fail(cause);
        }
        sink.slot = None;
    }

    /// An account is about to be committed; `cached` says whether the shadow
    /// has it. Whether it is to be committed to the shadow too.
    pub fn committed(&mut self, cached: bool, address: Address) -> (commit: bool)
        ensures
            commit == (old(self)@.block is Some && cached),
            final(self)@ == if old(self)@.block is Some && !cached {
                old(self)@.failing(Cause::Committed(address))
            } else {
                old(self)@
            },
    {
        if self.block.is_none() {
            return false;
        }
        if !cached {
            self.fail(Cause::Committed(address));
            return false;
        }
        true
    }

    /// The block has executed: what the sink recorded is to be appended to the
    /// store, unless something went wrong. Once it is, the sink is to be
    /// cleared.
    pub fn end_block(&mut self, sink: &Sink) -> (started: Result<Append, RecordError>)
        requires
            old(self)@.ends_with_room(sink@.stream.len() as int),
        ensures
            match old(self)@.block {
                None => {
                    &&& started == Err::<Append, RecordError>(RecordError::NotBegun)
                    &&& final(self)@ == old(self)@
                },
                Some(number) => {
                    &&& final(self)@.block is None
                    &&& final(self)@.failure is None
                    &&& match old(self)@.failure {
                        Some(failure) => {
                            &&& started == Err::<Append, RecordError>(RecordError::Failed(failure))
                            &&& final(self)@.writer == old(self)@.writer
                        },
                        None => {
                            let appended = match started {
                                Ok(append) => Ok(append),
                                Err(e) => Err(e->Store_0),
                            };
                            &&& started matches Err(e) ==> e is Store
                            &&& appends(
                                old(self)@.writer,
                                final(self)@.writer,
                                number as int,
                                sink@.stream,
                                appended,
                            )
                        },
                    }
                },
            },
    {
        match self.take_block() {
            Err(e) => Err(e),
            Ok(number) => match self.writer.append(number, sink.stream.as_slice()) {
                Ok(append) => Ok(append),
                Err(e) => Err(RecordError::Store(e)),
            },
        }
    }

    /// Ends the block like [`WitnessRecorder::end_block`], with a record of any
    /// length: nothing is to be appended where the record's frame has no room
    /// in the store.
    pub fn end_block_if_fits(&mut self, sink: &Sink) -> (started: Result<
        Option<Append>,
        RecordError,
    >)
        ensures
            match old(self)@.block {
                None => {
                    &&& started == Err::<Option<Append>, RecordError>(RecordError::NotBegun)
                    &&& final(self)@ == old(self)@
                },
                Some(number) => {
                    &&& final(self)@.block is None
                    &&& final(self)@.failure is None
                    &&& match old(self)@.failure {
                        Some(failure) => {
                            &&& started == Err::<Option<Append>, RecordError>(
                                RecordError::Failed(failure),
                            )
                            &&& final(self)@.writer == old(self)@.writer
                        },
                        None => {
                            let appended = match started {
                                Ok(append) => Ok(append),
                                Err(e) => Err(e->Store_0),
                            };
                            &&& started matches Err(e) ==> e is Store
                            &&& appends_if_fits(
                                old(self)@.writer,
                                final(self)@.writer,
                                number as int,
                                sink@.stream,
                                appended,
                            )
                        },
                    }
                },
            },
    {
        match self.take_block() {
            Err(e) => Err(e),
            Ok(number) => match self.writer.append_if_fits(number, sink.stream.as_slice()) {
                Ok(append) => Ok(append),
                Err(e) => Err(RecordError::Store(e)),
            },
        }
    }

    /// Ends the block that began, and gives its number, unless something went
    /// wrong.
    fn take_block(&mut self) -> (taken: Result<u64, RecordError>)
        ensures
            final(self)@.writer == old(self)@.writer,
            match (old(self)@.block, old(self)@.failure) {
                (None, _) => {
                    &&& taken == Err::<u64, RecordError>(RecordError::NotBegun)
                    &&& final(self)@ == old(self)@
                },
                (Some(_), Some(failure)) => {
                    &&& taken == Err::<u64, RecordError>(RecordError::Failed(failure))
                    &&& final(self)@.block is None
                    &&& final(self)@.failure is None
                },
                (Some(number), None) => {
                    &&& taken == Ok::<u64, RecordError>(number)
                    &&& final(self)@.block is None
                    &&& final(self)@.failure is None
                },
            },
    {
        let number = match self.block.take() {
            None => return Err(RecordError::NotBegun),
            Some(number) => number,
        };
        if let Some(failure) = self.failure.take() {
            return Err(RecordError::Failed(failure));
        }
        Ok(number)
    }

    /// The execution is done: what is to be done to write everything buffered
    /// to disk, unless something went wrong.
    pub fn finish(&mut self) -> (done: Result<Vec<FlushAction>, RecordError>)
        ensures
            final(self)@ == (RecorderState { failure: None, ..old(self)@ }),
            match (old(self)@.failure, done) {
                (Some(failure), Err(e)) => e == RecordError::Failed(failure),
                (None, Ok(actions)) => actions@ == flush_actions(old(self)@.writer),
                _ => false,
            },
    {
        if let Some(failure) = self.failure.take() {
            return Err(RecordError::Failed(failure));
        }
        Ok(self.writer.flush())
    }
}

/// What went wrong first is what is reported: a failure stays, whatever else
/// goes wrong or begins, until the end of a block or of the recording reports
/// it.
pub proof fn law_first_failure_is_kept(
    recorder: RecorderState,
    then: Cause,
    told: Option<Cause>,
    number: u64,
)
    requires
        recorder.failure is Some,
    ensures
        recorder.failing(then) == recorder,
        recorder.told(told) == recorder,
        recorder.begun(number).failure == recorder.failure,
{
}

/// Whatever goes wrong in a block is noted with its number, unless something
/// did before.
pub proof fn law_failures_name_their_block(recorder: RecorderState, cause: Cause)
    requires
        recorder.failure is None,
    ensures
        recorder.failing(cause).failure == Some(Failure { block: recorder.block, cause }),
{
}

/// A read that was offered to the shadow, and whether it reached the sink.
pub struct Offer {
    pub value: Value,
    pub reached: bool,
}

/// The sink after a read was offered: it was staged, the shadow asked for it
/// or did not, and it is staged no longer.
pub open spec fn offered(sink: SinkState, offer: Offer) -> SinkState {
    match offer.value {
        Value::Account(account) => {
            let staged = SinkState { account: Some(account), ..sink };
            let asked = if offer.reached {
                staged.after_basic()
            } else {
                staged
            };
            SinkState { account: None, ..asked }
        },
        Value::Slot(value) => {
            let staged = SinkState { slot: Some(value), ..sink };
            let asked = if offer.reached {
                staged.after_storage()
            } else {
                staged
            };
            SinkState { slot: None, ..asked }
        },
    }
}

/// The sink after all the offers of a block.
pub open spec fn recorded(offers: Seq<Offer>) -> SinkState
    decreases offers.len(),
{
    if offers.len() == 0 {
        SinkState::empty()
    } else {
        offered(recorded(offers.drop_last()), offers.last())
    }
}

/// The values that reached the sink, in order.
pub open spec fn reached(offers: Seq<Offer>) -> Seq<Value>
    decreases offers.len(),
{
    if offers.len() == 0 {
        Seq::empty()
    } else if offers.last().reached {
        reached(offers.drop_last()).push(offers.last().value)
    } else {
        reached(offers.drop_last())
    }
}

/// The record of a block holds exactly the values that reached the sink, in
/// order, and nothing stays staged.
pub proof fn law_record_holds_what_reached_the_sink(offers: Seq<Offer>)
    ensures
        recorded(offers) == (SinkState {
            account: None,
            slot: None,
            stream: stream_of(reached(offers)),
        }),
    decreases offers.len(),
{
    if offers.len() > 0 {
        law_record_holds_what_reached_the_sink(offers.drop_last());
        let before = reached(offers.drop_last());
        if offers.last().reached {
            assert(reached(offers).drop_last() =~= before);
        }
    }
}

/// A re-executor that asks its database for the values that reached the sink,
/// in order, gets just those, and uses up the record.
pub proof fn law_record_answers_the_same_questions(offers: Seq<Offer>)
    requires
        forall|i: int| 0 <= i < offers.len() ==> (#[trigger] offers[i]).value.fits(),
    ensures
        answers(questions_of(reached(offers)), recorded(offers).stream) == Ok::<
            (Seq<Value>, int),
            StreamError,
        >((reached(offers), recorded(offers).stream.len() as int)),
{
    law_record_holds_what_reached_the_sink(offers);
    lemma_reached_fit(offers);
    law_recorded_values_read_back(reached(offers), Seq::empty());
    assert(stream_of(reached(offers)) + Seq::<u8>::empty() =~= stream_of(reached(offers)));
}

proof fn lemma_reached_fit(offers: Seq<Offer>)
    requires
        forall|i: int| 0 <= i < offers.len() ==> (#[trigger] offers[i]).value.fits(),
    ensures
        forall|i: int| 0 <= i < reached(offers).len() ==> (#[trigger] reached(offers)[i]).fits(),
    decreases offers.len(),
{
    if offers.len() > 0 {
        let before = offers.drop_last();
        assert forall|i: int| 0 <= i < before.len() implies (#[trigger] before[i]).value.fits() by {
            assert(before[i] == offers[i]);
        }
        lemma_reached_fit(before);
        assert forall|i: int| 0 <= i < reached(offers).len() implies (#[trigger] reached(
            offers,
        )[i]).fits() by {
            if i < reached(before).len() {
                assert(reached(offers)[i] == reached(before)[i]);
            } else {
                assert(offers[offers.len() - 1].value.fits());
            }
        }
    }
}

/// A read that the recorder was told of in a block.
pub struct Access {
    /// The account that was read, or whose slot was.
    pub address: Seq<u8>,
    /// What was read.
    pub value: Value,
    /// Whether the shadow held the account by then.
    pub held: bool,
    /// Whether the shadow asked the sink, if the read was offered to it.
    pub asked: bool,
}

impl Access {
    /// Whether the recorder offers the read to the shadow: an account that the
    /// shadow does not hold, or a slot of one that it does.
    pub open spec fn offered(self) -> bool {
        (self.value is Account) != self.held
    }

    /// Whether the read is recorded.
    pub open spec fn recorded(self) -> bool {
        self.offered() && self.asked
    }

    /// Whether this is a read of the account at `address`.
    pub open spec fn reads_account(self, address: Seq<u8>) -> bool {
        self.value is Account && self.address == address
    }
}

/// The offers that the recorder makes of a block's reads.
pub open spec fn offers_of(accesses: Seq<Access>) -> Seq<Offer>
    decreases accesses.len(),
{
    if accesses.len() == 0 {
        Seq::empty()
    } else if accesses.last().offered() {
        offers_of(accesses.drop_last()).push(
            Offer { value: accesses.last().value, reached: accesses.last().asked },
        )
    } else {
        offers_of(accesses.drop_last())
    }
}

/// The reads that are recorded, in order.
pub open spec fn recorded_of(accesses: Seq<Access>) -> Seq<Access>
    decreases accesses.len(),
{
    if accesses.len() == 0 {
        Seq::empty()
    } else if accesses.last().recorded() {
        recorded_of(accesses.drop_last()).push(accesses.last())
    } else {
        recorded_of(accesses.drop_last())
    }
}

/// What was read.
pub open spec fn values_of(accesses: Seq<Access>) -> Seq<Value> {
    accesses.map_values(|access: Access| access.value)
}

/// What was read of the account at `address`, in order.
pub open spec fn account_values(accesses: Seq<Access>, address: Seq<u8>) -> Seq<Value>
    decreases accesses.len(),
{
    if accesses.len() == 0 {
        Seq::empty()
    } else if accesses.last().reads_account(address) {
        account_values(accesses.drop_last(), address).push(accesses.last().value)
    } else {
        account_values(accesses.drop_last(), address)
    }
}

/// Whether the `n`-th access is the first read of the account at `address`.
pub open spec fn is_first_read(accesses: Seq<Access>, n: int, address: Seq<u8>) -> bool {
    &&& 0 <= n < accesses.len()
    &&& accesses[n].reads_account(address)
    &&& forall|m: int| 0 <= m < n ==> !(#[trigger] accesses[m]).reads_account(address)
}

/// Whether the shadow started the block afresh and keeps what it asked for: it
/// holds an account just if the account was read in the block before, and asks
/// for every account that is offered to it.
pub open spec fn fresh_shadow(accesses: Seq<Access>) -> bool {
    forall|n: int|
        0 <= n < accesses.len() && (#[trigger] accesses[n]).value is Account ==> {
            &&& accesses[n].held <==> exists|m: int|
                0 <= m < n && (#[trigger] accesses[m]).reads_account(accesses[n].address)
            &&& !accesses[n].held ==> accesses[n].asked
        }
}

/// The record of a block is made of the reads that are recorded.
pub proof fn law_record_is_of_the_recorded_reads(accesses: Seq<Access>)
    ensures
        recorded(offers_of(accesses)).stream == stream_of(values_of(recorded_of(accesses))),
{
    lemma_reached_is_recorded(accesses);
    law_record_holds_what_reached_the_sink(offers_of(accesses));
}

proof fn lemma_reached_is_recorded(accesses: Seq<Access>)
    ensures
        reached(offers_of(accesses)) == values_of(recorded_of(accesses)),
    decreases accesses.len(),
{
    if accesses.len() > 0 {
        let before = accesses.drop_last();
        lemma_reached_is_recorded(before);
        if accesses.last().offered() {
            assert(offers_of(accesses).drop_last() =~= offers_of(before));
        }
    }
    assert(reached(offers_of(accesses)) =~= values_of(recorded_of(accesses)));
}

/// Every address has one account entry in a block's record, that of the first
/// value read in the block, however often the account is read; one that is not
/// read has none.
pub proof fn law_one_account_entry_per_address(accesses: Seq<Access>, address: Seq<u8>)
    requires
        fresh_shadow(accesses),
    ensures
        forall|first: int| #[trigger]
            is_first_read(accesses, first, address) ==> account_values(
                recorded_of(accesses),
                address,
            ) == seq![accesses[first].value],
        (forall|n: int|
            0 <= n < accesses.len() ==> !(#[trigger] accesses[n]).reads_account(address))
            ==> account_values(recorded_of(accesses), address) == Seq::<Value>::empty(),
    decreases accesses.len(),
{
    if accesses.len() > 0 {
        let before = accesses.drop_last();
        let last = accesses.last();
        let count = accesses.len() - 1;
        assert(last == accesses[count]);
        assert forall|n: int| 0 <= n < before.len() && (#[trigger] before[n]).value is Account implies {
            &&& before[n].held <==> exists|m: int|
                0 <= m < n && (#[trigger] before[m]).reads_account(before[n].address)
            &&& !before[n].held ==> before[n].asked
        } by {
            assert(before[n] == accesses[n]);
            if before[n].held {
                let m = choose|m: int|
                    0 <= m < n && (#[trigger] accesses[m]).reads_account(accesses[n].address);
                assert(before[m].reads_account(before[n].address));
            }
            if exists|m: int|
                0 <= m < n && (#[trigger] before[m]).reads_account(before[n].address) {
                let m = choose|m: int|
                    0 <= m < n && (#[trigger] before[m]).reads_account(before[n].address);
                assert(accesses[m].reads_account(accesses[n].address));
            }
        }
        law_one_account_entry_per_address(before, address);
        if last.recorded() {
            assert(recorded_of(accesses).drop_last() =~= recorded_of(before));
        }
        assert forall|first: int| #[trigger]
            is_first_read(accesses, first, address) implies account_values(
            recorded_of(accesses),
            address,
        ) == seq![accesses[first].value] by {
            if first < count {
                assert(is_first_read(before, first, address)) by {
                    assert forall|m: int| 0 <= m < first implies !(
                    #[trigger] before[m]).reads_account(address) by {
                        assert(!accesses[m].reads_account(address));
                    }
                }
                if last.reads_account(address) {
                    assert(accesses[first].reads_account(accesses[count].address));
                    assert(last.held);
                }
            } else {
                assert forall|n: int| 0 <= n < before.len() implies !(
                #[trigger] before[n]).reads_account(address) by {
                    assert(!accesses[n].reads_account(address));
                }
                assert(!last.held);
                assert(account_values(recorded_of(accesses), address) =~= seq![last.value]);
            }
        }
        if forall|n: int|
            0 <= n < accesses.len() ==> !(#[trigger] accesses[n]).reads_account(address) {
            assert forall|n: int| 0 <= n < before.len() implies !(
            #[trigger] before[n]).reads_account(address) by {
                assert(!accesses[n].reads_account(address));
            }
        }
    }
}

/// A block that begins is recorded under its number, and leaves the store as it
/// is. If another was never ended, that is noted under the new number, unless
/// something went wrong before.
pub proof fn law_a_block_begins_under_its_number(recorder: RecorderState, number: u64)
    ensures
        recorder.begun(number).block == Some(number),
        recorder.begun(number).writer == recorder.writer,
        recorder.failure is Some ==> recorder.begun(number).failure == recorder.failure,
        recorder.failure is None && recorder.block is None ==> recorder.begun(number).failure
            is None,
        recorder.failure is None && recorder.block is Some ==> {
            &&& recorder.begun(number).failure matches Some(failure)
            &&& failure.block == Some(number)
            &&& failure.cause == Cause::NeverEnded(recorder.block->0)
        },
{
}

/// The record of a block goes to the store as that block: what ends the block
/// that began as `number` appends to the store in which `number` is the next
/// block, in the frame of the record, and is refused by every other with the
/// block that it expects and `number`.
pub proof fn law_a_block_is_appended_under_its_number(
    recorder: RecorderState,
    number: u64,
    stream: Seq<u8>,
    after: Writer,
    started: Result<Append, StoreError>,
)
    requires
        appends(
            recorder.begun(number).writer,
            after,
            recorder.begun(number).block->0 as int,
            stream,
            started,
        ),
    ensures
        recorder.writer.blocks != number ==> {
            &&& started matches Err(StoreError::OutOfOrder { expected, given })
            &&& expected == recorder.writer.blocks
            &&& given == number
            &&& after == recorder.writer
        },
        recorder.writer.blocks == number && stream.len() < 64 ==> started is Ok,
        started matches Ok(append) ==> {
            &&& recorder.writer.blocks == number
            &&& append@.frame == frame_of(stream)
        },
{
}

/// What goes wrong is noted with the block that is being recorded, unless
/// something went wrong before, and touches nothing else.
pub proof fn law_what_goes_wrong_is_noted(recorder: RecorderState, cause: Cause)
    ensures
        recorder.failing(cause).writer == recorder.writer,
        recorder.failing(cause).block == recorder.block,
        recorder.failure is Some ==> recorder.failing(cause).failure == recorder.failure,
        recorder.failure is None ==> {
            &&& recorder.failing(cause).failure matches Some(failure)
            &&& failure.block == recorder.block
            &&& failure.cause == cause
        },
        recorder.told(None) == recorder,
        recorder.told(Some(cause)).writer == recorder.writer,
        recorder.told(Some(cause)).block == recorder.block,
        recorder.failure is Some ==> recorder.told(Some(cause)).failure == recorder.failure,
        recorder.failure is None ==> {
            &&& recorder.told(Some(cause)).failure matches Some(failure)
            &&& failure.block == recorder.block
            &&& failure.cause == cause
        },
{
}

/// When the record of a block has room in the store: always, if nothing is to be
/// appended or the block is not the next one. Else there is a block number left,
/// and a record that is not empty and a byte more are no longer than a segment
/// and end, behind a whole segment of padding, on a 64-bit offset.
pub proof fn law_room_for_a_record(recorder: RecorderState, len: int)
    requires
        0 <= len,
    ensures
        recorder.ends_with_room(len) <==> {
            ||| recorder.block is None
            ||| recorder.failure is Some
            ||| recorder.block->0 != recorder.writer.blocks
            ||| recorder.writer.blocks < 0xffff_ffff_ffff_ffff && (len == 0 || (len + 1
                <= 0x8000_0000 && recorder.writer.next_offset + 0x8000_0000 + len + 1
                <= 0xffff_ffff_ffff_ffff))
        },
{
}

/// A sink that answers for an account records it behind what it recorded
/// before, and has it no longer; whatever slot is staged stays. Without an
/// account it records nothing.
pub proof fn law_a_sink_records_its_account(sink: SinkState, account: Option<Account>)
    ensures
        sink.account == Some(account) ==> {
            &&& sink.after_basic().stream == sink.stream + account_entry(account)
            &&& sink.after_basic().account is None
            &&& sink.after_basic().slot == sink.slot
        },
        sink.account is None ==> sink.after_basic() == sink,
{
}

/// A sink that answers for a slot records its value behind what it recorded
/// before, and has it no longer; whatever account is staged stays. Without a
/// value it records nothing.
pub proof fn law_a_sink_records_its_slot(sink: SinkState, value: nat)
    ensures
        sink.slot == Some(value) ==> {
            &&& sink.after_storage().stream == sink.stream + slot_entry(value)
            &&& sink.after_storage().slot is None
            &&& sink.after_storage().account == sink.account
        },
        sink.slot is None ==> sink.after_storage() == sink,
{
}

/// A new sink has nothing staged and nothing recorded.
pub proof fn law_a_new_sink_is_empty()
    ensures
        SinkState::empty().account is None,
        SinkState::empty().slot is None,
        SinkState::empty().stream.len() == 0,
{
}

/// What an offer adds to a record: the entry of a value that reached the sink,
/// and nothing for one that did not. Nothing of it stays staged.
pub proof fn law_what_an_offer_records(sink: SinkState, offer: Offer)
    ensures
        !offer.reached ==> offered(sink, offer).stream == sink.stream,
        offer.reached ==> match offer.value {
            Value::Account(account) => offered(sink, offer).stream == sink.stream + account_entry(
                account,
            ),
            Value::Slot(value) => offered(sink, offer).stream == sink.stream + slot_entry(value),
        },
        offer.value is Account ==> offered(sink, offer).account is None && offered(
            sink,
            offer,
        ).slot == sink.slot,
        offer.value is Slot ==> offered(sink, offer).slot is None && offered(sink, offer).account
            == sink.account,
{
}

} // verus!
