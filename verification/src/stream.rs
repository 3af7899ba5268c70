//! One block's witness: the values it read, framed for positional reading.
//!
//! Every entry is `[len: u8][bytes: len]`. The reader knows from its own
//! position in the execution whether the next entry is an account or a
//! storage slot, so entries carry no type and no key.
//!
//! An account entry with `len == 0` is an absent account. Otherwise its
//! bytes are `[nonce: uint][balance: uint][code: 0 | 1, hash32]`, where a
//! `uint` is `[n: u8][big-endian bytes: n]` with leading zeros stripped, and
//! a code flag of `0` means the empty-code hash. The longest account is 75
//! bytes.
//!
//! A slot entry is the value's big-endian bytes with leading zeros stripped;
//! zero is `len == 0`.
use crate::digits::{
    be_value, lemma_be_value_bound, lemma_be_value_of_minimal, lemma_be_value_zeros,
    lemma_minimal_be_len, lemma_minimal_of_be_value, minimal_be, pow256, u64_from_be, u64_to_be,
    zeros,
};
use crate::primitives::{
    account_view, keccak_empty, keccak_empty_bytes, u256_from_be_bytes, u256_to_be_bytes, Account,
    AccountInfo, B256, U256,
};
use vstd::prelude::*;

verus! {

/// `bytes` behind their length.
pub open spec fn prefixed(bytes: Seq<u8>) -> Seq<u8> {
    seq![bytes.len() as u8] + bytes
}

/// A number as its minimal big-endian bytes behind their count.
pub open spec fn uint(v: nat) -> Seq<u8> {
    prefixed(minimal_be(v))
}

/// The code field of an account.
pub open spec fn code_field(hash: Seq<u8>) -> Seq<u8> {
    if hash == keccak_empty_bytes() {
        seq![0u8]
    } else {
        seq![1u8] + hash
    }
}

/// The bytes of a present account.
pub open spec fn account_bytes(a: Account) -> Seq<u8> {
    uint(a.nonce) + uint(a.balance) + code_field(a.code_hash)
}

/// The entry of an account.
pub open spec fn account_entry(a: Option<Account>) -> Seq<u8> {
    match a {
        None => prefixed(Seq::empty()),
        Some(a) => prefixed(account_bytes(a)),
    }
}

/// The entry of a slot.
pub open spec fn slot_entry(v: nat) -> Seq<u8> {
    uint(v)
}

/// Appends the account entry for `info`.
pub fn put_account(out: &mut Vec<u8>, info: Option<&AccountInfo>)
    ensures
        final(out)@ == old(out)@ + account_entry(
            match info {
                Some(info) => Some(info@),
                None => None,
            },
        ),
{
    let ghost before = out@;
    let info = match info {
        None => {
            out.push(0);
            assert(out@ =~= before + account_entry(None));
            return ;
        },
        Some(info) => info,
    };
    let start: usize = out.len();
    out.push(0);
    let nonce = u64_to_be(info.nonce);
    put_uint(out, &nonce);
    let balance = u256_to_be_bytes(&info.balance);
    put_uint(out, &balance);
    if info.code_hash.same(&keccak_empty()) {
        out.push(0);
    } else {
        out.push(1);
        out.extend_from_slice(info.code_hash.0.as_slice());
    }
    let ghost body = account_bytes(info@);
    assert(out@ =~= before.push(0) + body);
    proof {
        lemma_be_value_bound(nonce@);
        lemma_be_value_bound(balance@);
        lemma_account_bytes_len(info@);
    }
    let len: usize = out.len() - start - 1;
    out[start] = len as u8;
    assert(out@ =~= before + prefixed(body));
}

/// Appends the slot entry for `value`.
pub fn put_slot(out: &mut Vec<u8>, value: U256)
    ensures
        final(out)@ == old(out)@ + slot_entry(value@),
{
    put_uint(out, &u256_to_be_bytes(&value));
}

/// Appends the number that `be` spells, without its leading zeros, behind the
/// count of what is left.
fn put_uint(out: &mut Vec<u8>, be: &[u8])
    requires
        be@.len() <= 255,
    ensures
        final(out)@ == old(out)@ + uint(be_value(be@)),
{
    let mut first: usize = 0;
    while first < be.len() && be[first] == 0
        invariant
            first <= be@.len(),
            forall|i: int| 0 <= i < first ==> be@[i] == 0,
        decreases be@.len() - first,
    {
        first = first + 1;
    }
    let trimmed = vstd::slice::slice_subrange(be, first, be.len());
    proof {
        assert(be@ =~= zeros(first as nat) + trimmed@);
        lemma_be_value_zeros(first as nat, trimmed@);
        lemma_minimal_of_be_value(trimmed@);
    }
    let ghost before = out@;
    out.push(trimmed.len() as u8);
    out.extend_from_slice(trimmed);
    assert(out@ =~= before + prefixed(trimmed@));
}

/// Whether an account is one that machine words can hold.
pub open spec fn account_fits(a: Account) -> bool {
    &&& a.nonce < pow256(8)
    &&& a.balance < pow256(32)
    &&& a.code_hash.len() == 32
}

/// A present account takes from 3 to 75 bytes.
proof fn lemma_account_bytes_len(a: Account)
    requires
        account_fits(a),
    ensures
        3 <= account_bytes(a).len() <= 75,
{
    lemma_minimal_be_len(a.nonce, 8);
    lemma_minimal_be_len(a.balance, 32);
}

/// Why a stream could not be read.
#[derive(Debug, Clone, Copy, PartialEq, Eq)]
pub enum StreamError {
    /// The execution asked for a value past the end of the stream.
    Exhausted {
        /// Bytes consumed before the read that found nothing.
        consumed: usize,
    },
    /// An entry does not decode as what the execution asked for.
    Malformed {
        /// Offset of the entry.
        at: usize,
        /// What was wrong with it.
        what: &'static str,
    },
}

/// The bytes of the entry at `pos`, behind its length.
pub open spec fn entry_at(data: Seq<u8>, pos: int) -> Result<Seq<u8>, StreamError> {
    if pos >= data.len() {
        Err(StreamError::Exhausted { consumed: pos as usize })
    } else if pos + 1 + data[pos] > data.len() {
        Err(
            StreamError::Malformed {
                at: pos as usize,
                what: "entry runs past the end of the stream",
            },
        )
    } else {
        Ok(data.subrange(pos + 1, pos + 1 + data[pos]))
    }
}

/// Where the reader stands after taking the entry at `pos`: behind it, or
/// still at `pos` where there is no whole entry.
pub open spec fn after_entry(data: Seq<u8>, pos: int) -> int {
    if entry_at(data, pos) is Ok {
        pos + 1 + data[pos]
    } else {
        pos
    }
}

/// A counted number's bytes at the start of `s`, and what follows them.
pub open spec fn split_uint(s: Seq<u8>) -> Option<(Seq<u8>, Seq<u8>)> {
    if s.len() == 0 || s.len() < 1 + s[0] {
        None
    } else {
        Some((s.subrange(1, 1 + s[0]), s.skip(1 + s[0])))
    }
}

/// The hash that the code field of an account holds.
pub open spec fn parse_code(field: Seq<u8>) -> Option<Seq<u8>> {
    if field == seq![0u8] {
        Some(keccak_empty_bytes())
    } else if field.len() == 33 && field[0] == 1 {
        Some(field.skip(1))
    } else {
        None
    }
}

/// The account that the bytes of an entry hold, or what is wrong with them.
pub open spec fn parse_account(bytes: Seq<u8>) -> Result<Option<Account>, &'static str> {
    if bytes.len() == 0 {
        Ok(None)
    } else {
        match split_uint(bytes) {
            None => Err("nonce"),
            Some((nonce, rest)) => if nonce.len() > 8 {
                Err("nonce wider than 64 bits")
            } else {
                match split_uint(rest) {
                    None => Err("balance"),
                    Some((balance, rest)) => if balance.len() > 32 {
                        Err("balance wider than 256 bits")
                    } else {
                        match parse_code(rest) {
                            None => Err("code hash"),
                            Some(code_hash) => Ok(
                                Some(
                                    Account {
                                        nonce: be_value(nonce),
                                        balance: be_value(balance),
                                        code_hash,
                                    },
                                ),
                            ),
                        }
                    },
                }
            },
        }
    }
}

/// The slot value that the bytes of an entry hold, or what is wrong with them.
pub open spec fn parse_slot(bytes: Seq<u8>) -> Result<nat, &'static str> {
    if bytes.len() > 32 {
        Err("slot value wider than 256 bits")
    } else {
        Ok(be_value(bytes))
    }
}

/// What reading an account at `pos` gives.
pub open spec fn account_at(data: Seq<u8>, pos: int) -> Result<Option<Account>, StreamError> {
    match entry_at(data, pos) {
        Err(e) => Err(e),
        Ok(bytes) => match parse_account(bytes) {
            Err(what) => Err(StreamError::Malformed { at: pos as usize, what }),
            Ok(account) => Ok(account),
        },
    }
}

/// What reading a slot at `pos` gives.
pub open spec fn slot_at(data: Seq<u8>, pos: int) -> Result<nat, StreamError> {
    match entry_at(data, pos) {
        Err(e) => Err(e),
        Ok(bytes) => match parse_slot(bytes) {
            Err(what) => Err(StreamError::Malformed { at: pos as usize, what }),
            Ok(value) => Ok(value),
        },
    }
}

/// The outcome of reading an account, as its mathematical content.
pub open spec fn account_outcome(read: Result<Option<AccountInfo>, StreamError>) -> Result<
    Option<Account>,
    StreamError,
> {
    match read {
        Ok(info) => Ok(account_view(info)),
        Err(e) => Err(e),
    }
}

/// The outcome of reading a slot, as its mathematical content.
pub open spec fn slot_outcome(read: Result<U256, StreamError>) -> Result<nat, StreamError> {
    match read {
        Ok(value) => Ok(value@),
        Err(e) => Err(e),
    }
}

/// Reads a stream entry by entry.
#[derive(Debug)]
pub struct StreamReader<'a> {
    data: &'a [u8],
    pos: usize,
}

impl Clone for StreamReader<'_> {
    fn clone(&self) -> (copy: Self)
        ensures
            copy.data() == self.data(),
            copy.pos() == self.pos(),
    {
        proof {
            use_type_invariant(self);
        }
        StreamReader { data: self.data, pos: self.pos }
    }
}

impl<'a> StreamReader<'a> {
    /// The stream under the reader.
    pub closed spec fn data(&self) -> Seq<u8> {
        self.data@
    }

    /// How many bytes of the stream the reader has passed.
    pub closed spec fn pos(&self) -> int {
        self.pos as int
    }

    #[verifier::type_invariant]
    spec fn within(&self) -> bool {
        self.pos <= self.data@.len()
    }

    /// A reader at the start of `data`.
    pub fn new(data: &'a [u8]) -> (reader: Self)
        ensures
            reader.data() == data@,
            reader.pos() == 0,
    {
        Self { data, pos: 0 }
    }

    /// Bytes not yet consumed.
    pub fn remaining(&self) -> (left: usize)
        ensures
            left == self.data().len() - self.pos(),
            self.pos() + left == self.data().len(),
    {
        proof {
            use_type_invariant(self);
        }
        self.data.len() - self.pos
    }

    /// Bytes consumed so far.
    pub fn consumed(&self) -> (passed: usize)
        ensures
            passed == self.pos(),
            passed <= self.data().len(),
    {
        proof {
            use_type_invariant(self);
        }
        self.pos
    }

    /// Takes the next entry: where it starts, and its bytes.
    fn entry(&mut self) -> (taken: Result<(usize, &'a [u8]), StreamError>)
        ensures
            final(self).data() == old(self).data(),
            final(self).pos() == after_entry(old(self).data(), old(self).pos()),
            match taken {
                Ok((at, bytes)) => at == old(self).pos() && entry_at(
                    old(self).data(),
                    old(self).pos(),
                ) == Ok::<Seq<u8>, StreamError>(bytes@),
                Err(e) => entry_at(old(self).data(), old(self).pos()) == Err::<
                    Seq<u8>,
                    StreamError,
                >(e),
            },
    {
        proof {
            use_type_invariant(&*self);
        }
        let data = self.data;
        let at: usize = self.pos;
        if at >= data.len() {
            return Err(StreamError::Exhausted { consumed: at });
        }
        let len: usize = data[at] as usize;
        let start: usize = at + 1;
        if data.len() - start < len {
            return Err(
                StreamError::Malformed { at, what: "entry runs past the end of the stream" },
            );
        }
        let end: usize = start + len;
        self.pos = end;
        Ok((at, vstd::slice::slice_subrange(data, start, end)))
    }

    /// The next entry as an account.
    pub fn next_account(&mut self) -> (read: Result<Option<AccountInfo>, StreamError>)
        ensures
            final(self).data() == old(self).data(),
            final(self).pos() == after_entry(old(self).data(), old(self).pos()),
            account_outcome(read) == account_at(old(self).data(), old(self).pos()),
    {
        let (at, bytes) = match self.entry() {
            Ok(taken) => taken,
            Err(e) => return Err(e),
        };
        if bytes.len() == 0 {
            return Ok(None);
        }
        let (nonce, rest) = match take_uint(bytes) {
            None => return Err(StreamError::Malformed { at, what: "nonce" }),
            Some(split) => split,
        };
        if nonce.len() > 8 {
            return Err(StreamError::Malformed { at, what: "nonce wider than 64 bits" });
        }
        let (balance, rest) = match take_uint(rest) {
            None => return Err(StreamError::Malformed { at, what: "balance" }),
            Some(split) => split,
        };
        if balance.len() > 32 {
            return Err(StreamError::Malformed { at, what: "balance wider than 256 bits" });
        }
        let code_hash = if rest.len() == 1 && rest[0] == 0 {
            assert(rest@ =~= seq![0u8]);
            keccak_empty()
        } else if rest.len() == 33 && rest[0] == 1 {
            B256(padded::<32>(vstd::slice::slice_subrange(rest, 1, 33)))
        } else {
            return Err(StreamError::Malformed { at, what: "code hash" });
        };
        proof {
            if rest@.len() == 33 {
                assert(zeros(0) + rest@.skip(1) =~= rest@.skip(1));
                assert(rest@.subrange(1, 33) =~= rest@.skip(1));
            }
            lemma_be_value_zeros((8 - nonce@.len()) as nat, nonce@);
            lemma_be_value_zeros((32 - balance@.len()) as nat, balance@);
        }
        Ok(
            Some(
                AccountInfo {
                    nonce: u64_from_be(&padded::<8>(nonce)),
                    balance: u256_from_be_bytes(padded::<32>(balance)),
                    code_hash,
                },
            ),
        )
    }

    /// The next entry as a storage slot.
    pub fn next_slot(&mut self) -> (read: Result<U256, StreamError>)
        ensures
            final(self).data() == old(self).data(),
            final(self).pos() == after_entry(old(self).data(), old(self).pos()),
            slot_outcome(read) == slot_at(old(self).data(), old(self).pos()),
    {
        let (at, bytes) = match self.entry() {
            Ok(taken) => taken,
            Err(e) => return Err(e),
        };
        if bytes.len() > 32 {
            return Err(StreamError::Malformed { at, what: "slot value wider than 256 bits" });
        }
        proof {
            lemma_be_value_zeros((32 - bytes@.len()) as nat, bytes@);
        }
        Ok(u256_from_be_bytes(padded::<32>(bytes)))
    }
}

/// Splits a counted number's bytes off the start of `bytes`.
fn take_uint(bytes: &[u8]) -> (split: Option<(&[u8], &[u8])>)
    ensures
        match split {
            Some((number, rest)) => split_uint(bytes@) == Some((number@, rest@)),
            None => split_uint(bytes@) is None,
        },
{
    if bytes.len() == 0 {
        return None;
    }
    let n: usize = bytes[0] as usize;
    if bytes.len() - 1 < n {
        return None;
    }
    let number = vstd::slice::slice_subrange(bytes, 1, 1 + n);
    let rest = vstd::slice::slice_subrange(bytes, 1 + n, bytes.len());
    assert(rest@ =~= bytes@.skip(1 + n));
    Some((number, rest))
}

/// `trimmed` behind as many zeros as fill up `N` bytes.
fn padded<const N: usize>(trimmed: &[u8]) -> (out: [u8; N])
    requires
        trimmed@.len() <= N,
    ensures
        out@ == zeros((N - trimmed@.len()) as nat) + trimmed@,
{
    let mut out = [0u8;N];
    let gap: usize = N - trimmed.len();
    let mut i: usize = 0;
    while i < trimmed.len()
        invariant
            gap + trimmed@.len() == N,
            i <= trimmed@.len(),
            forall|j: int| 0 <= j < gap ==> out@[j] == 0,
            forall|j: int| 0 <= j < i ==> out@[gap + j] == trimmed@[j],
        decreases trimmed@.len() - i,
    {
        out[gap + i] = trimmed[i];
        i = i + 1;
    }
    assert(out@ =~= zeros(gap as nat) + trimmed@) by {
        assert forall|k: int| 0 <= k < N implies out@[k] == (zeros(gap as nat) + trimmed@)[k] by {
            if k >= gap {
                assert(out@[gap + (k - gap)] == trimmed@[k - gap]);
            }
        }
    }
    out
}

/// What an execution asks of its database.
pub enum Question {
    Account,
    Slot,
}

/// What a database answers.
#[verifier::ext_equal]
pub enum Value {
    Account(Option<Account>),
    Slot(nat),
}

impl Value {
    /// The question that this value answers.
    pub open spec fn question(self) -> Question {
        match self {
            Value::Account(_) => Question::Account,
            Value::Slot(_) => Question::Slot,
        }
    }

    /// The value's entry in a stream.
    pub open spec fn entry(self) -> Seq<u8> {
        match self {
            Value::Account(a) => account_entry(a),
            Value::Slot(v) => slot_entry(v),
        }
    }

    /// Whether the value is one that machine words can hold.
    pub open spec fn fits(self) -> bool {
        match self {
            Value::Account(Some(a)) => account_fits(a),
            Value::Account(None) => true,
            Value::Slot(v) => v < pow256(32),
        }
    }
}

/// The stream that holds `values` in their order.
pub open spec fn stream_of(values: Seq<Value>) -> Seq<u8>
    decreases values.len(),
{
    if values.len() == 0 {
        Seq::empty()
    } else {
        stream_of(values.drop_last()) + values.last().entry()
    }
}

/// The questions that `values` answer, in their order.
pub open spec fn questions_of(values: Seq<Value>) -> Seq<Question> {
    values.map_values(|v: Value| v.question())
}

/// What a stream answers to a question asked at `pos`.
pub open spec fn answer_at(question: Question, data: Seq<u8>, pos: int) -> Result<
    Value,
    StreamError,
> {
    match question {
        Question::Account => match account_at(data, pos) {
            Ok(a) => Ok(Value::Account(a)),
            Err(e) => Err(e),
        },
        Question::Slot => match slot_at(data, pos) {
            Ok(v) => Ok(Value::Slot(v)),
            Err(e) => Err(e),
        },
    }
}

/// What a stream answers to questions asked one after the other from its
/// start, and where the last answer ends.
pub open spec fn answers(questions: Seq<Question>, data: Seq<u8>) -> Result<
    (Seq<Value>, int),
    StreamError,
>
    decreases questions.len(),
{
    if questions.len() == 0 {
        Ok((Seq::empty(), 0))
    } else {
        match answers(questions.drop_last(), data) {
            Err(e) => Err(e),
            Ok((values, pos)) => match answer_at(questions.last(), data, pos) {
                Err(e) => Err(e),
                Ok(value) => Ok((values.push(value), after_entry(data, pos))),
            },
        }
    }
}

/// An entry is found where it was written, whatever stands around it.
proof fn lemma_entry_found(before: Seq<u8>, bytes: Seq<u8>, tail: Seq<u8>)
    requires
        bytes.len() <= 255,
    ensures
        entry_at(before + prefixed(bytes) + tail, before.len() as int) == Ok::<
            Seq<u8>,
            StreamError,
        >(bytes),
        after_entry(before + prefixed(bytes) + tail, before.len() as int) == before.len()
            + prefixed(bytes).len(),
{
    let data = before + prefixed(bytes) + tail;
    let pos = before.len() as int;
    assert(data[pos] == bytes.len() as u8);
    assert(data.subrange(pos + 1, pos + 1 + data[pos]) =~= bytes);
}

/// A counted number splits off what follows it.
proof fn lemma_split_uint(v: nat, n: nat, tail: Seq<u8>)
    requires
        v < pow256(n),
        n <= 32,
    ensures
        split_uint(uint(v) + tail) == Some((minimal_be(v), tail)),
        minimal_be(v).len() <= n,
        be_value(minimal_be(v)) == v,
{
    lemma_minimal_be_len(v, n);
    lemma_be_value_of_minimal(v);
    let s = uint(v) + tail;
    assert(s[0] == minimal_be(v).len() as u8);
    assert(s.subrange(1, 1 + s[0]) =~= minimal_be(v));
    assert(s.skip(1 + s[0]) =~= tail);
}

/// What an account's bytes decode to is the account.
pub proof fn law_account_round_trip(a: Account)
    requires
        account_fits(a),
    ensures
        parse_account(account_bytes(a)) == Ok::<Option<Account>, &'static str>(Some(a)),
{
    let code = code_field(a.code_hash);
    let rest = uint(a.balance) + code;
    assert(account_bytes(a) =~= uint(a.nonce) + rest);
    lemma_split_uint(a.nonce, 8, rest);
    lemma_split_uint(a.balance, 32, code);
    if a.code_hash != keccak_empty_bytes() {
        assert(code.skip(1) =~= a.code_hash);
    }
    assert(parse_code(code) == Some(a.code_hash));
}

/// What a slot's bytes decode to is the slot's value.
pub proof fn law_slot_round_trip(v: nat)
    requires
        v < pow256(32),
    ensures
        parse_slot(minimal_be(v)) == Ok::<nat, &'static str>(v),
{
    lemma_minimal_be_len(v, 32);
    lemma_be_value_of_minimal(v);
}

/// An entry takes its length byte and at most 75 bytes more.
pub proof fn law_entry_length(value: Value)
    requires
        value.fits(),
    ensures
        1 <= value.entry().len() <= 76,
        value.entry()[0] == value.entry().len() - 1,
{
    match value {
        Value::Account(Some(a)) => {
            lemma_account_bytes_len(a);
        },
        Value::Account(None) => {},
        Value::Slot(v) => {
            lemma_minimal_be_len(v, 32);
        },
    }
}

/// An absent account and a zero slot are one zero byte each, and nothing else is.
pub proof fn law_zero_byte_entries(value: Value)
    requires
        value.fits(),
    ensures
        value.entry() == seq![0u8] <==> value == Value::Account(None) || value == Value::Slot(0),
{
    law_entry_length(value);
    match value {
        Value::Account(Some(a)) => {
            lemma_account_bytes_len(a);
            assert(value.entry().len() > 1);
        },
        Value::Account(None) => {
            assert(value.entry() =~= seq![0u8]);
        },
        Value::Slot(v) => {
            lemma_be_value_of_minimal(v);
            if v == 0 {
                assert(value.entry() =~= seq![0u8]);
            } else {
                assert(minimal_be(v).len() > 0);
            }
        },
    }
}

/// A value is answered where its entry was written, whatever stands around it.
pub proof fn law_value_read_where_written(before: Seq<u8>, value: Value, tail: Seq<u8>)
    requires
        value.fits(),
    ensures
        answer_at(value.question(), before + value.entry() + tail, before.len() as int) == Ok::<
            Value,
            StreamError,
        >(value),
        after_entry(before + value.entry() + tail, before.len() as int) == before.len()
            + value.entry().len(),
{
    match value {
        Value::Account(Some(a)) => {
            lemma_account_bytes_len(a);
            law_account_round_trip(a);
            lemma_entry_found(before, account_bytes(a), tail);
        },
        Value::Account(None) => {
            lemma_entry_found(before, Seq::empty(), tail);
        },
        Value::Slot(v) => {
            law_slot_round_trip(v);
            lemma_minimal_be_len(v, 32);
            lemma_entry_found(before, minimal_be(v), tail);
        },
    }
}

/// Asked the questions that were recorded, in their order, a stream answers
/// with the values that were recorded and stops at its end; what follows it
/// plays no part.
pub proof fn law_recorded_values_read_back(values: Seq<Value>, tail: Seq<u8>)
    requires
        forall|i: int| 0 <= i < values.len() ==> (#[trigger] values[i]).fits(),
    ensures
        answers(questions_of(values), stream_of(values) + tail) == Ok::<
            (Seq<Value>, int),
            StreamError,
        >((values, stream_of(values).len() as int)),
    decreases values.len(),
{
    if values.len() == 0 {
        assert(values =~= Seq::empty());
    } else {
        let rest = values.drop_last();
        let value = values.last();
        law_recorded_values_read_back(rest, value.entry() + tail);
        assert(stream_of(values) + tail =~= stream_of(rest) + (value.entry() + tail));
        assert(stream_of(values) + tail =~= stream_of(rest) + value.entry() + tail);
        assert(questions_of(values).drop_last() =~= questions_of(rest));
        law_value_read_where_written(stream_of(rest), value, tail);
        assert(rest.push(value) =~= values);
    }
}

/// One question more than was recorded finds the stream exhausted.
pub proof fn law_reading_more_exhausts(values: Seq<Value>, question: Question)
    requires
        forall|i: int| 0 <= i < values.len() ==> (#[trigger] values[i]).fits(),
    ensures
        answers(questions_of(values).push(question), stream_of(values)) == Err::<
            (Seq<Value>, int),
            StreamError,
        >(StreamError::Exhausted { consumed: stream_of(values).len() as usize }),
{
    law_recorded_values_read_back(values, Seq::empty());
    assert(stream_of(values) + Seq::<u8>::empty() =~= stream_of(values));
    assert(questions_of(values).push(question).drop_last() =~= questions_of(values));
}

/// Fewer questions than were recorded leave bytes of the stream over.
pub proof fn law_reading_less_leaves_bytes(values: Seq<Value>, n: int)
    requires
        forall|i: int| 0 <= i < values.len() ==> (#[trigger] values[i]).fits(),
        0 <= n < values.len(),
    ensures
        answers(questions_of(values.take(n)), stream_of(values)) == Ok::<
            (Seq<Value>, int),
            StreamError,
        >((values.take(n), stream_of(values.take(n)).len() as int)),
        stream_of(values.take(n)).len() < stream_of(values).len(),
    decreases values.len(),
{
    let rest = values.drop_last();
    law_entry_length(values.last());
    let tail = lemma_stream_prefix(values, n);
    law_recorded_values_read_back(values.take(n), tail);
    if n < rest.len() {
        assert(rest.take(n) =~= values.take(n));
        law_reading_less_leaves_bytes(rest, n);
    } else {
        assert(rest =~= values.take(n));
    }
}

/// The stream of the first values starts the stream of all.
proof fn lemma_stream_prefix(values: Seq<Value>, n: int) -> (tail: Seq<u8>)
    requires
        0 <= n <= values.len(),
    ensures
        stream_of(values) == stream_of(values.take(n)) + tail,
    decreases values.len(),
{
    if n == values.len() {
        assert(values.take(n) =~= values);
        assert(stream_of(values) + Seq::<u8>::empty() =~= stream_of(values));
        Seq::empty()
    } else {
        let rest = values.drop_last();
        let tail = lemma_stream_prefix(rest, n);
        assert(rest.take(n) =~= values.take(n));
        let whole = tail + values.last().entry();
        assert(stream_of(values) =~= stream_of(values.take(n)) + whole);
        whole
    }
}

/// How an account is laid out: behind one byte for the length of what follows
/// come the nonce and the balance, each as its bytes without leading zeros
/// behind one byte for their count, and then a zero byte if it has no code, or
/// a one byte and the hash of its code. An absent account is one zero byte.
pub proof fn law_account_entry_layout(a: Account, nonce: Seq<u8>, balance: Seq<u8>)
    requires
        be_value(nonce) == a.nonce,
        nonce.len() <= 8,
        nonce.len() > 0 ==> nonce[0] != 0,
        be_value(balance) == a.balance,
        balance.len() <= 32,
        balance.len() > 0 ==> balance[0] != 0,
        a.code_hash.len() == 32,
    ensures
        account_entry(None) == seq![0u8],
        a.code_hash == keccak_empty_bytes() ==> account_entry(Some(a)) == seq![
            (3 + nonce.len() + balance.len()) as u8,
        ] + seq![nonce.len() as u8] + nonce + seq![balance.len() as u8] + balance + seq![0u8],
        a.code_hash != keccak_empty_bytes() ==> account_entry(Some(a)) == seq![
            (35 + nonce.len() + balance.len()) as u8,
        ] + seq![nonce.len() as u8] + nonce + seq![balance.len() as u8] + balance + seq![1u8]
            + a.code_hash,
{
    assert(account_entry(None) =~= seq![0u8]);
    lemma_minimal_of_be_value(nonce);
    lemma_minimal_of_be_value(balance);
    let numbers = seq![nonce.len() as u8] + nonce + seq![balance.len() as u8] + balance;
    let len = account_bytes(a).len() as u8;
    assert(account_entry(Some(a)) =~= seq![len] + seq![nonce.len() as u8] + nonce + seq![
        balance.len() as u8,
    ] + balance + code_field(a.code_hash));
    if a.code_hash != keccak_empty_bytes() {
        assert(account_entry(Some(a)) =~= seq![len] + seq![nonce.len() as u8] + nonce + seq![
            balance.len() as u8,
        ] + balance + seq![1u8] + a.code_hash);
    }
}

/// How a slot is laid out: its bytes without leading zeros, behind one byte for
/// their count.
pub proof fn law_slot_entry_layout(v: nat, bytes: Seq<u8>)
    requires
        be_value(bytes) == v,
        bytes.len() <= 32,
        bytes.len() > 0 ==> bytes[0] != 0,
    ensures
        slot_entry(v) == seq![bytes.len() as u8] + bytes,
{
    lemma_minimal_of_be_value(bytes);
}

/// What lies behind a length byte is read as an account: a nonce of at most
/// eight bytes and a balance of at most 32, each behind its count, with or
/// without leading zeros, and the code field. Anything else is malformed, and
/// says where and what. Either way the reader goes on behind it.
pub proof fn law_reading_an_account(
    before: Seq<u8>,
    nonce: Seq<u8>,
    balance: Seq<u8>,
    code: Seq<u8>,
    tail: Seq<u8>,
)
    requires
        nonce.len() + balance.len() + code.len() + 2 <= 255,
    ensures
        ({
            let len = nonce.len() + balance.len() + code.len() + 2;
            let data = before + (seq![len as u8] + seq![nonce.len() as u8] + nonce + seq![
                balance.len() as u8,
            ] + balance + code) + tail;
            let pos = before.len() as int;
            &&& after_entry(data, pos) == pos + 1 + len
            &&& account_at(data, pos) == if nonce.len() > 8 {
                Err(StreamError::Malformed { at: pos as usize, what: "nonce wider than 64 bits" })
            } else if balance.len() > 32 {
                Err(StreamError::Malformed { at: pos as usize, what: "balance wider than 256 bits" })
            } else if code.len() == 1 && code[0] == 0 {
                Ok(
                    Some(
                        Account {
                            nonce: be_value(nonce),
                            balance: be_value(balance),
                            code_hash: keccak_empty_bytes(),
                        },
                    ),
                )
            } else if code.len() == 33 && code[0] == 1 {
                Ok(
                    Some(
                        Account {
                            nonce: be_value(nonce),
                            balance: be_value(balance),
                            code_hash: code.skip(1),
                        },
                    ),
                )
            } else {
                Err(StreamError::Malformed { at: pos as usize, what: "code hash" })
            }
        }),
{
    let rest = seq![balance.len() as u8] + balance + code;
    let bytes = seq![nonce.len() as u8] + nonce + rest;
    let len = nonce.len() + balance.len() + code.len() + 2;
    assert(seq![len as u8] + seq![nonce.len() as u8] + nonce + seq![balance.len() as u8] + balance
        + code =~= prefixed(bytes));
    lemma_entry_found(before, bytes, tail);
    assert(bytes.subrange(1, 1 + bytes[0]) =~= nonce);
    assert(bytes.skip(1 + bytes[0]) =~= rest);
    assert(rest.subrange(1, 1 + rest[0]) =~= balance);
    assert(rest.skip(1 + rest[0]) =~= code);
    if code.len() == 1 && code[0] == 0 {
        assert(code =~= seq![0u8]);
    }
}

/// What lies behind a length byte is read as a slot if it is at most 32 bytes,
/// with or without leading zeros; else it is malformed. Either way the reader
/// goes on behind it.
pub proof fn law_reading_a_slot(before: Seq<u8>, bytes: Seq<u8>, tail: Seq<u8>)
    requires
        bytes.len() <= 255,
    ensures
        ({
            let data = before + (seq![bytes.len() as u8] + bytes) + tail;
            let pos = before.len() as int;
            &&& after_entry(data, pos) == pos + 1 + bytes.len()
            &&& slot_at(data, pos) == if bytes.len() > 32 {
                Err(
                    StreamError::Malformed {
                        at: pos as usize,
                        what: "slot value wider than 256 bits",
                    },
                )
            } else {
                Ok(be_value(bytes))
            }
        }),
{
    lemma_entry_found(before, bytes, tail);
}

/// What cannot be read, whatever is asked for: nothing behind the end of the
/// stream, and no entry that runs past it. The reader stays where it is. A
/// length byte of zero is an absent account and a zero slot.
pub proof fn law_reading_at_the_end(data: Seq<u8>, pos: int)
    requires
        0 <= pos,
    ensures
        pos >= data.len() ==> {
            let exhausted = StreamError::Exhausted { consumed: pos as usize };
            &&& account_at(data, pos) == Err::<Option<Account>, StreamError>(exhausted)
            &&& slot_at(data, pos) == Err::<nat, StreamError>(exhausted)
            &&& after_entry(data, pos) == pos
        },
        pos < data.len() && pos + data[pos] >= data.len() ==> {
            let cut = StreamError::Malformed {
                at: pos as usize,
                what: "entry runs past the end of the stream",
            };
            &&& account_at(data, pos) == Err::<Option<Account>, StreamError>(cut)
            &&& slot_at(data, pos) == Err::<nat, StreamError>(cut)
            &&& after_entry(data, pos) == pos
        },
        pos < data.len() && data[pos] == 0 ==> {
            &&& account_at(data, pos) == Ok::<Option<Account>, StreamError>(None)
            &&& slot_at(data, pos) == Ok::<nat, StreamError>(0)
            &&& after_entry(data, pos) == pos + 1
        },
{
    if pos < data.len() && data[pos] == 0 {
        assert(data.subrange(pos + 1, pos + 1) =~= Seq::empty());
    }
}

/// An entry whose counts run past its end is malformed: where the nonce's does
/// it is the nonce, and where the balance's does it is the balance, unless the
/// nonce is too wide already.
pub proof fn law_reading_a_cut_account(before: Seq<u8>, bytes: Seq<u8>, tail: Seq<u8>)
    requires
        1 <= bytes.len() <= 255,
    ensures
        ({
            let data = before + (seq![bytes.len() as u8] + bytes) + tail;
            let pos = before.len() as int;
            let next = 1 + bytes[0];
            &&& bytes[0] >= bytes.len() ==> account_at(data, pos) == Err::<
                Option<Account>,
                StreamError,
            >(StreamError::Malformed { at: pos as usize, what: "nonce" })
            &&& 8 < bytes[0] < bytes.len() ==> account_at(data, pos) == Err::<
                Option<Account>,
                StreamError,
            >(StreamError::Malformed { at: pos as usize, what: "nonce wider than 64 bits" })
            &&& bytes[0] <= 8 && next <= bytes.len() && (next == bytes.len() || next + bytes[next]
                >= bytes.len()) ==> account_at(data, pos) == Err::<Option<Account>, StreamError>(
                StreamError::Malformed { at: pos as usize, what: "balance" },
            )
        }),
{
    lemma_entry_found(before, bytes, tail);
}

/// A stream is its values' entries one behind the other.
pub proof fn law_stream_grows_by_an_entry(values: Seq<Value>, value: Value)
    ensures
        stream_of(Seq::empty()) == Seq::<u8>::empty(),
        stream_of(values.push(value)) == stream_of(values) + match value {
            Value::Account(a) => account_entry(a),
            Value::Slot(v) => slot_entry(v),
        },
        questions_of(values.push(value)) == questions_of(values).push(
            match value {
                Value::Account(_) => Question::Account,
                Value::Slot(_) => Question::Slot,
            },
        ),
{
    assert(values.push(value).drop_last() =~= values);
    assert(questions_of(values.push(value)) =~= questions_of(values).push(value.question()));
}

/// A question is answered by what is read where the last answer ended.
pub proof fn law_answers_go_on(questions: Seq<Question>, question: Question, data: Seq<u8>)
    ensures
        answers(Seq::empty(), data) == Ok::<(Seq<Value>, int), StreamError>((Seq::empty(), 0)),
        answers(questions, data) matches Err(e) ==> answers(questions.push(question), data) == Err::<
            (Seq<Value>, int),
            StreamError,
        >(e),
        answers(questions, data) matches Ok((values, pos)) ==> answers(
            questions.push(question),
            data,
        ) == match question {
            Question::Account => match account_at(data, pos) {
                Ok(a) => Ok((values.push(Value::Account(a)), after_entry(data, pos))),
                Err(e) => Err(e),
            },
            Question::Slot => match slot_at(data, pos) {
                Ok(v) => Ok((values.push(Value::Slot(v)), after_entry(data, pos))),
                Err(e) => Err(e),
            },
        },
{
    assert(questions.push(question).drop_last() =~= questions);
}

/// Every value that an execution can read is one that the laws speak of.
pub proof fn law_every_value_fits(info: AccountInfo, value: U256)
    ensures
        Value::Account(None).fits(),
        Value::Account(Some(info@)).fits(),
        Value::Slot(value@).fits(),
{
    reveal_with_fuel(pow256, 33);
    assert(pow256(8) == 0x1_0000_0000_0000_0000);
    assert(pow256(32)
        == 0x1_0000_0000_0000_0000_0000_0000_0000_0000_0000_0000_0000_0000_0000_0000_0000_0000);
}

/// What was read holds what the account or the number holds, and an error is
/// kept.
pub proof fn law_what_a_read_holds(info: AccountInfo, value: U256, e: StreamError)
    ensures
        account_outcome(Ok(Some(info))) == Ok::<Option<Account>, StreamError>(Some(info@)),
        account_outcome(Ok(None)) == Ok::<Option<Account>, StreamError>(None),
        account_outcome(Err(e)) == Err::<Option<Account>, StreamError>(e),
        slot_outcome(Ok(value)) == Ok::<nat, StreamError>(value@),
        slot_outcome(Err(e)) == Err::<nat, StreamError>(e),
{
}

} // verus!
