//! Re-executing a block from its witness, without state.
use crate::primitives::{account_view, Account, AccountInfo, Address, B256, U256};
use crate::stream::{
    account_at, after_entry, answers, law_reading_less_leaves_bytes, law_reading_more_exhausts,
    law_recorded_values_read_back, questions_of, slot_at, stream_of, Question, StreamError,
    StreamReader, Value,
};
use vstd::prelude::*;

verus! {

/// Why a block could not be replayed.
#[derive(Debug)]
pub enum ReplayError {
    /// The witness ran out or does not decode.
    Stream(StreamError),
    /// The code source has no code for a hash the block needed.
    MissingCode(B256),
    /// The hash source has no hash for a block `BLOCKHASH` asked for.
    MissingBlockHash(u64),
    /// The executor refused the block.
    Execution(String),
    /// Execution finished with witness left over: it read less than was
    /// recorded, so it did not execute what was recorded.
    Unconsumed(usize),
}

impl From<StreamError> for ReplayError {
    fn from(e: StreamError) -> (error: Self) {
        ReplayError::Stream(e)
    }
}

impl vstd::std_specs::convert::FromSpecImpl<StreamError> for ReplayError {
    open spec fn obeys_from_spec() -> bool {
        true
    }

    open spec fn from_spec(e: StreamError) -> Self {
        ReplayError::Stream(e)
    }
}

/// A database that answers each read with the next value of a witness.
///
/// Code and block hashes are not in the witness; `codes` and `hashes`
/// supply them. `codes` is asked by code hash, `hashes` by block number.
///
/// It remembers the first read that it had no answer to: whatever an executor
/// makes of that, it is why the block cannot be replayed.
pub struct WitnessDb<'a, C, H> {
    reader: StreamReader<'a>,
    codes: C,
    hashes: H,
    failed: Option<ReadFailure>,
}

/// A read that a [`WitnessDb`] has no answer to.
#[derive(Debug, Clone, Copy)]
pub enum ReadFailure {
    /// The witness ran out or does not decode.
    Stream(StreamError),
    /// The code source has no code for the hash.
    MissingCode(B256),
    /// The hash source has no hash for the block.
    MissingBlockHash(u64),
}

impl ReadFailure {
    /// Why the block cannot be replayed.
    pub open spec fn reason(self) -> ReplayError {
        match self {
            ReadFailure::Stream(e) => ReplayError::Stream(e),
            ReadFailure::MissingCode(hash) => ReplayError::MissingCode(hash),
            ReadFailure::MissingBlockHash(number) => ReplayError::MissingBlockHash(number),
        }
    }

    /// Why the block cannot be replayed.
    pub fn error(self) -> (error: ReplayError)
        ensures
            error == self.reason(),
    {
        match self {
            ReadFailure::Stream(e) => ReplayError::from(e),
            ReadFailure::MissingCode(hash) => ReplayError::MissingCode(hash),
            ReadFailure::MissingBlockHash(number) => ReplayError::MissingBlockHash(number),
        }
    }
}

/// The first failure, where `failed` is the first before and `now` comes next.
pub open spec fn first_failure(failed: Option<ReadFailure>, now: Option<ReadFailure>) -> Option<
    ReadFailure,
> {
    if failed is Some {
        failed
    } else {
        now
    }
}

/// The failure of a read of the witness, if it failed.
pub open spec fn stream_failure<T>(read: Result<T, StreamError>) -> Option<ReadFailure> {
    match read {
        Ok(_) => None,
        Err(e) => Some(ReadFailure::Stream(e)),
    }
}

/// What a database answers where its witness reads as `read`.
pub open spec fn db_answer<T>(read: Result<T, StreamError>) -> Result<T, ReplayError> {
    match read {
        Ok(value) => Ok(value),
        Err(e) => Err(ReplayError::Stream(e)),
    }
}

/// The answer to a question for an account, as its mathematical content.
pub open spec fn account_answer(read: Result<Option<AccountInfo>, ReplayError>) -> Result<
    Option<Account>,
    ReplayError,
> {
    match read {
        Ok(info) => Ok(account_view(info)),
        Err(e) => Err(e),
    }
}

/// The answer to a question for a slot, as its mathematical content.
pub open spec fn slot_answer(read: Result<U256, ReplayError>) -> Result<nat, ReplayError> {
    match read {
        Ok(value) => Ok(value@),
        Err(e) => Err(e),
    }
}

impl<'a, C, H> WitnessDb<'a, C, H> {
    /// The witness.
    pub closed spec fn witness(&self) -> Seq<u8> {
        self.reader.data()
    }

    /// How many bytes of the witness were consumed.
    pub closed spec fn pos(&self) -> int {
        self.reader.pos()
    }

    /// The source of codes.
    pub closed spec fn codes(&self) -> C {
        self.codes
    }

    /// The source of block hashes.
    pub closed spec fn hashes(&self) -> H {
        self.hashes
    }

    /// The first read that it had no answer to.
    pub closed spec fn failed(&self) -> Option<ReadFailure> {
        self.failed
    }

    /// Whether this is a database over `witness` that has answered no read.
    pub open spec fn starts(&self, witness: Seq<u8>, codes: C, hashes: H) -> bool {
        &&& self.witness() == witness
        &&& self.pos() == 0
        &&& self.codes() == codes
        &&& self.hashes() == hashes
        &&& self.failed() is None
    }

    /// A database over `witness`.
    pub fn new(witness: &'a [u8], codes: C, hashes: H) -> (db: Self)
        ensures
            db.starts(witness@, codes, hashes),
    {
        Self { reader: StreamReader::new(witness), codes, hashes, failed: None }
    }

    /// The reader, to see how much of the witness was consumed.
    pub fn reader(&self) -> (reader: &StreamReader<'a>)
        ensures
            reader.data() == self.witness(),
            reader.pos() == self.pos(),
    {
        &self.reader
    }

    /// The first read that it had no answer to.
    pub fn failure(&self) -> (failed: Option<ReadFailure>)
        ensures
            failed == self.failed(),
    {
        self.failed
    }

    /// Remembers a read without an answer, unless there was one before, and
    /// says why it has none.
    fn fail(&mut self, now: ReadFailure) -> (error: ReplayError)
        ensures
            error == now.reason(),
            final(self).witness() == old(self).witness(),
            final(self).pos() == old(self).pos(),
            final(self).codes() == old(self).codes(),
            final(self).hashes() == old(self).hashes(),
            final(self).failed() == first_failure(old(self).failed(), Some(now)),
    {
        if self.failed.is_none() {
            self.failed = Some(now);
        }
        now.error()
    }

    /// The next value of the witness, as an account. Whose it is plays no
    /// part.
    pub fn basic(&mut self, _address: Address) -> (read: Result<Option<AccountInfo>, ReplayError>)
        ensures
            final(self).witness() == old(self).witness(),
            final(self).pos() == after_entry(old(self).witness(), old(self).pos()),
            final(self).codes() == old(self).codes(),
            final(self).hashes() == old(self).hashes(),
            account_answer(read) == db_answer(account_at(old(self).witness(), old(self).pos())),
            final(self).failed() == first_failure(
                old(self).failed(),
                stream_failure(account_at(old(self).witness(), old(self).pos())),
            ),
    {
        match self.reader.next_account() {
            Ok(info) => Ok(info),
            Err(e) => Err(self.fail(ReadFailure::Stream(e))),
        }
    }

    /// The next value of the witness, as a storage slot. Which one it is
    /// plays no part.
    pub fn storage(&mut self, _address: Address, _index: U256) -> (read: Result<U256, ReplayError>)
        ensures
            final(self).witness() == old(self).witness(),
            final(self).pos() == after_entry(old(self).witness(), old(self).pos()),
            final(self).codes() == old(self).codes(),
            final(self).hashes() == old(self).hashes(),
            slot_answer(read) == db_answer(slot_at(old(self).witness(), old(self).pos())),
            final(self).failed() == first_failure(
                old(self).failed(),
                stream_failure(slot_at(old(self).witness(), old(self).pos())),
            ),
    {
        match self.reader.next_slot() {
            Ok(value) => Ok(value),
            Err(e) => Err(self.fail(ReadFailure::Stream(e))),
        }
    }

    /// The code of a hash, from the source of codes.
    pub fn code_by_hash<T>(&mut self, code_hash: B256) -> (read: Result<T, ReplayError>) where
        C: FnMut(B256) -> Option<T>,

        requires
            call_requires(old(self).codes(), (code_hash,)),
        ensures
            final(self).witness() == old(self).witness(),
            final(self).pos() == old(self).pos(),
            final(self).hashes() == old(self).hashes(),
            exists|found: Option<T>| #[trigger]
                call_ensures(old(self).codes(), (code_hash,), found) && match found {
                    Some(code) => {
                        &&& read == Ok::<T, ReplayError>(code)
                        &&& final(self).failed() == old(self).failed()
                    },
                    None => {
                        &&& read == Err::<T, ReplayError>(ReplayError::MissingCode(code_hash))
                        &&& final(self).failed() == first_failure(
                            old(self).failed(),
                            Some(ReadFailure::MissingCode(code_hash)),
                        )
                    },
                },
    {
        let found = (self.codes)(code_hash);
        assert(call_ensures(old(self).codes(), (code_hash,), found));
        match found {
            Some(code) => Ok(code),
            None => Err(self.fail(ReadFailure::MissingCode(code_hash))),
        }
    }

    /// The hash of a block, from the source of block hashes.
    pub fn block_hash(&mut self, number: u64) -> (read: Result<B256, ReplayError>) where
        H: FnMut(u64) -> Option<B256>,

        requires
            call_requires(old(self).hashes(), (number,)),
        ensures
            final(self).witness() == old(self).witness(),
            final(self).pos() == old(self).pos(),
            final(self).codes() == old(self).codes(),
            exists|found: Option<B256>| #[trigger]
                call_ensures(old(self).hashes(), (number,), found) && match found {
                    Some(hash) => {
                        &&& read == Ok::<B256, ReplayError>(hash)
                        &&& final(self).failed() == old(self).failed()
                    },
                    None => {
                        &&& read == Err::<B256, ReplayError>(ReplayError::MissingBlockHash(number))
                        &&& final(self).failed() == first_failure(
                            old(self).failed(),
                            Some(ReadFailure::MissingBlockHash(number)),
                        )
                    },
                },
    {
        let found = (self.hashes)(number);
        assert(call_ensures(old(self).hashes(), (number,), found));
        match found {
            Some(hash) => Ok(hash),
            None => Err(self.fail(ReadFailure::MissingBlockHash(number))),
        }
    }
}

/// What a replay comes to, given what the executor says, the first read that
/// the database had no answer to, and how many bytes of the witness are left. A
/// read without an answer is why the block cannot be replayed, whatever the
/// executor made of it.
pub open spec fn replayed<T>(
    executed: Result<T, String>,
    failed: Option<ReadFailure>,
    left: int,
) -> Result<T, ReplayError> {
    match (failed, executed) {
        (Some(failure), _) => Err(failure.reason()),
        (None, Err(why)) => Err(ReplayError::Execution(why)),
        (None, Ok(result)) => if left != 0 {
            Err(ReplayError::Unconsumed(left as usize))
        } else {
            Ok(result)
        },
    }
}

/// Judges a replay by what the executor says, by the first read that the
/// database had no answer to, and by how many bytes of the witness are left.
pub fn replay_outcome<T>(
    executed: Result<T, String>,
    failed: Option<ReadFailure>,
    left: usize,
) -> (outcome: Result<T, ReplayError>)
    ensures
        outcome == replayed(executed, failed, left as int),
{
    if let Some(failure) = failed {
        return Err(failure.error());
    }
    match executed {
        Err(why) => Err(ReplayError::Execution(why)),
        Ok(result) => {
            if left != 0 {
                return Err(ReplayError::Unconsumed(left));
            }
            Ok(result)
        },
    }
}

/// Executes a block against its `witness` with a fresh state, the way the
/// witness was recorded, and returns what execution produced. The caller
/// validates the result against the header (gas used, receipts root): the
/// witness proves nothing by itself.
///
/// `execute` runs the block over the database it is given, and hands that
/// database back beside what came of it.
pub fn replay_block<'a, E, T, C, H>(
    execute: E,
    witness: &'a [u8],
    codes: C,
    hashes: H,
) -> (outcome: Result<T, ReplayError>) where
    E: FnOnce(WitnessDb<'a, C, H>) -> (Result<T, String>, WitnessDb<'a, C, H>),

    requires
        forall|db: WitnessDb<'a, C, H>|
            db.starts(witness@, codes, hashes) ==> #[trigger] call_requires(execute, (db,)),
    ensures
        exists|db: WitnessDb<'a, C, H>, executed: Result<T, String>, after: WitnessDb<'a, C, H>|
            {
                &&& db.starts(witness@, codes, hashes)
                &&& #[trigger] call_ensures(execute, (db,), (executed, after))
                &&& outcome == replayed(
                    executed,
                    after.failed(),
                    after.witness().len() - after.pos(),
                )
            },
{
    let db = WitnessDb::new(witness, codes, hashes);
    let ghost start = db;
    let (executed, after) = execute(db);
    assert(call_ensures(execute, (start,), (executed, after)));
    let left: usize = after.reader().remaining();
    replay_outcome(executed, after.failure(), left)
}

/// An executor that succeeds is believed just if it read all that was
/// recorded: of a witness of `values`, one that asks for the first `n` of them
/// gets these values, and is refused for the bytes it left unless those are
/// all.
pub proof fn law_only_a_full_replay_counts<T>(values: Seq<Value>, n: int, result: T)
    requires
        forall|i: int| 0 <= i < values.len() ==> (#[trigger] values[i]).fits(),
        0 <= n <= values.len(),
        stream_of(values).len() <= usize::MAX,
    ensures
        ({
            let pos = stream_of(values.take(n)).len() as int;
            let left = stream_of(values).len() - pos;
            &&& answers(questions_of(values.take(n)), stream_of(values)) == Ok::<
                (Seq<Value>, int),
                StreamError,
            >((values.take(n), pos))
            &&& replayed(Ok(result), None, left) == if n == values.len() {
                Ok(result)
            } else {
                Err(ReplayError::Unconsumed(left as usize))
            }
        }),
{
    if n == values.len() {
        assert(values.take(n) =~= values);
        law_recorded_values_read_back(values, Seq::empty());
        assert(stream_of(values) + Seq::<u8>::empty() =~= stream_of(values));
    } else {
        law_reading_less_leaves_bytes(values, n);
    }
}

/// A replay that asks for more than was recorded is refused for that, whatever
/// the executor says and however much it read before: the witness ran out.
pub proof fn law_a_replay_past_the_record_is_refused<T>(
    values: Seq<Value>,
    question: Question,
    executed: Result<T, String>,
    left: int,
)
    requires
        forall|i: int| 0 <= i < values.len() ==> (#[trigger] values[i]).fits(),
    ensures
        ({
            let read = answers(questions_of(values).push(question), stream_of(values));
            let ran_out = StreamError::Exhausted { consumed: stream_of(values).len() as usize };
            &&& read == Err::<(Seq<Value>, int), StreamError>(ran_out)
            &&& replayed(executed, stream_failure(read), left) == Err::<T, ReplayError>(
                ReplayError::Stream(ran_out),
            )
        }),
{
    law_reading_more_exhausts(values, question);
}

/// What a replay comes to. A read without an answer is why the block cannot be
/// replayed, whatever else happened. An executor that refused the block is
/// quoted. One that succeeded is believed just if no byte is left, and else the
/// number of bytes left is reported.
pub proof fn law_outcome_of_a_replay<T>(result: T, why: String, failure: ReadFailure, left: usize)
    ensures
        replayed(Ok(result), None, 0) == Ok::<T, ReplayError>(result),
        left > 0 ==> replayed(Ok(result), None, left as int) == Err::<T, ReplayError>(
            ReplayError::Unconsumed(left),
        ),
        replayed(Err::<T, String>(why), None, left as int) == Err::<T, ReplayError>(
            ReplayError::Execution(why),
        ),
        replayed(Ok(result), Some(failure), left as int) == Err::<T, ReplayError>(
            failure.reason(),
        ),
        replayed(Err::<T, String>(why), Some(failure), left as int) == Err::<T, ReplayError>(
            failure.reason(),
        ),
{
}

/// A read without an answer is reported as what it is: the witness and its
/// error, the code and its hash, or the block and its number.
pub proof fn law_reasons_name_what_was_missing(e: StreamError, hash: B256, number: u64)
    ensures
        ReadFailure::Stream(e).reason() == ReplayError::Stream(e),
        ReadFailure::MissingCode(hash).reason() == ReplayError::MissingCode(hash),
        ReadFailure::MissingBlockHash(number).reason() == ReplayError::MissingBlockHash(number),
{
}

/// The first read without an answer is the one that is remembered.
pub proof fn law_the_first_failure_stays(first: ReadFailure, now: Option<ReadFailure>)
    ensures
        first_failure(Some(first), now) == Some(first),
        first_failure(None, now) == now,
{
}

/// A database answers with what its witness reads as, and a witness that does
/// not read is a read without an answer.
pub proof fn law_a_database_answers_with_its_witness<T>(value: T, e: StreamError)
    ensures
        db_answer(Ok::<T, StreamError>(value)) == Ok::<T, ReplayError>(value),
        db_answer(Err::<T, StreamError>(e)) == Err::<T, ReplayError>(ReplayError::Stream(e)),
        stream_failure(Ok::<T, StreamError>(value)) is None,
        stream_failure(Err::<T, StreamError>(e)) == Some(ReadFailure::Stream(e)),
{
}

/// What an answer holds is what the value in it holds.
pub proof fn law_what_an_answer_holds(info: AccountInfo, value: U256, e: ReplayError)
    ensures
        account_answer(Ok(Some(info))) == Ok::<Option<Account>, ReplayError>(Some(info@)),
        account_answer(Ok(None)) == Ok::<Option<Account>, ReplayError>(None),
        account_answer(Err(e)) == Err::<Option<Account>, ReplayError>(e),
        slot_answer(Ok(value)) == Ok::<nat, ReplayError>(value@),
        slot_answer(Err(e)) == Err::<nat, ReplayError>(e),
{
}

/// A database starts at the first byte of its witness, with nothing failed and
/// the sources that it was given.
pub proof fn law_a_database_starts_at_the_front<C, H>(
    db: WitnessDb<'_, C, H>,
    witness: Seq<u8>,
    codes: C,
    hashes: H,
)
    requires
        db.starts(witness, codes, hashes),
    ensures
        db.witness() == witness,
        db.pos() == 0,
        db.codes() == codes,
        db.hashes() == hashes,
        db.failed() is None,
{
}

} // verus!
