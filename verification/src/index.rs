//! The index of a store: which bytes of the data belong to which block.
//!
//! An index is a 16-byte header (magic `N42W`, version `1`, a flags byte, the
//! segment size as a power of two (`31`), five reserved zero bytes, then a
//! `u32` of reserved zeros) followed by one 12-byte entry per block,
//! `[offset: u64 LE][len: u32 LE]`, block `n` at entry `n`.
use crate::digits::{
    le_bytes, le_value, lemma_le_bytes, lemma_le_value, lemma_pow256_values, push_le, read_le,
};
use crate::text::{
    decimal, decimal4, law_decimal4_digits, law_decimal4_injective, law_decimal_places, to_decimal,
    to_decimal4,
};
use vstd::prelude::*;

verus! {

/// The version that the header carries.
pub const VERSION: u8 = 1;

/// The segment size as a power of two, as the header carries it.
pub const SEGMENT_BITS: u8 = 31;

/// The size of a data segment: 2 to the [`SEGMENT_BITS`].
pub const SEGMENT_SIZE: u64 = 0x8000_0000;

/// The length of the header.
pub const HEADER_LEN: usize = 16;

/// The length of an entry.
pub const ENTRY_LEN: usize = 12;

/// The header of an index.
pub open spec fn header_bytes() -> Seq<u8> {
    seq![0x4e, 0x34, 0x32, 0x57, VERSION, 0, SEGMENT_BITS, 0, 0, 0, 0, 0, 0, 0, 0, 0]
}

/// The header that an index starts with.
pub fn header() -> (bytes: [u8; 16])
    ensures
        bytes@ == header_bytes(),
{
    let bytes: [u8; 16] = [0x4e, 0x34, 0x32, 0x57, VERSION, 0, SEGMENT_BITS, 0, 0, 0, 0, 0, 0, 0, 0, 0];
    assert(bytes@ =~= header_bytes());
    bytes
}

/// Where the data of a block lies: `offset` counts through the segments in
/// order. A `len` of zero is an empty witness.
#[derive(Debug, Clone, Copy, PartialEq, Eq)]
pub struct Entry {
    pub offset: u64,
    pub len: u32,
}

/// The twelve bytes of an entry.
pub open spec fn entry_bytes(entry: Entry) -> Seq<u8> {
    le_bytes(entry.offset as nat, 8) + le_bytes(entry.len as nat, 4)
}

/// The entry that twelve bytes hold.
pub open spec fn entry_of(bytes: Seq<u8>) -> Entry {
    Entry { offset: le_value(bytes.take(8)) as u64, len: le_value(bytes.subrange(8, 12)) as u32 }
}

impl Entry {
    /// Where the entry's data ends.
    pub open spec fn spec_end(self) -> int {
        self.offset + self.len
    }

    /// Where the entry's data ends.
    pub fn end(self) -> (end: u64)
        requires
            self.spec_end() <= u64::MAX,
        ensures
            end == self.spec_end(),
    {
        self.offset + self.len as u64
    }

    /// The entry as it stands in an index.
    pub fn to_bytes(self) -> (bytes: Vec<u8>)
        ensures
            bytes@ == entry_bytes(self),
            bytes@.len() == ENTRY_LEN,
    {
        let mut bytes: Vec<u8> = Vec::new();
        push_le(&mut bytes, self.offset, 8);
        push_le(&mut bytes, self.len as u64, 4);
        proof {
            lemma_pow256_values();
            lemma_le_bytes(self.offset as nat, 8);
            lemma_le_bytes(self.len as nat, 4);
        }
        assert(bytes@ =~= entry_bytes(self));
        bytes
    }

    /// The entry that the first twelve bytes of `b` hold.
    pub fn from_bytes(b: &[u8]) -> (entry: Entry)
        requires
            b@.len() >= ENTRY_LEN,
        ensures
            entry == entry_of(b@),
    {
        let offset = vstd::slice::slice_subrange(b, 0, 8);
        let len = vstd::slice::slice_subrange(b, 8, 12);
        proof {
            lemma_pow256_values();
            lemma_le_value(offset@);
            lemma_le_value(len@);
            assert(b@.take(8) =~= offset@);
        }
        Entry { offset: read_le(offset), len: read_le(len) as u32 }
    }
}

/// An entry is what its own bytes hold.
pub proof fn law_entry_round_trip(entry: Entry)
    ensures
        entry_bytes(entry).len() == ENTRY_LEN,
        entry_of(entry_bytes(entry)) == entry,
{
    lemma_pow256_values();
    lemma_le_bytes(entry.offset as nat, 8);
    lemma_le_bytes(entry.len as nat, 4);
    let bytes = entry_bytes(entry);
    assert(bytes.take(8) =~= le_bytes(entry.offset as nat, 8));
    assert(bytes.subrange(8, 12) =~= le_bytes(entry.len as nat, 4));
}

/// What is wrong with an index, or with the data under it.
#[derive(Debug, Clone, Copy, PartialEq, Eq)]
pub enum IndexFault {
    /// It is shorter than its header.
    Short { len: usize },
    /// It does not start with the magic.
    Magic,
    /// It has another version.
    Version { found: u8 },
    /// It was written for another segment size.
    SegmentBits { found: u8 },
    /// It does not end on a whole entry.
    Trailing { extra: usize },
    /// An entry starts before the one in front of it ends, is longer than a
    /// segment, or lies where no offset reaches.
    Entry { number: usize },
    /// Entries point into a segment that is not there.
    MissingSegment { segment: u64 },
    /// A segment does not end where the next entry has to start.
    SegmentLength { segment: u64, position: u64, expected: u64 },
}

/// The text of a fault.
pub open spec fn fault_text(fault: IndexFault) -> Seq<char> {
    match fault {
        IndexFault::Short { len } => decimal(len as nat) + " bytes, shorter than the header"@,
        IndexFault::Magic => "not a witness index (bad magic)"@,
        IndexFault::Version { found } => "version "@ + decimal(found as nat)
            + " (this code reads version "@ + decimal(VERSION as nat) + ")"@,
        IndexFault::SegmentBits { found } => "segment bits "@ + decimal(found as nat)
            + " (this code uses "@ + decimal(SEGMENT_BITS as nat) + ")"@,
        IndexFault::Trailing { extra } => decimal(extra as nat)
            + " trailing bytes are not a whole entry"@,
        IndexFault::Entry { number } => "entry "@ + decimal(number as nat)
            + " is out of order or oversized"@,
        IndexFault::MissingSegment { segment } => "entries point into missing segment "@
            + decimal(segment as nat),
        IndexFault::SegmentLength { segment, position, expected } => "segment "@ + decimal(
            segment as nat,
        ) + " is "@ + decimal(position as nat) + " bytes, the index expects "@ + decimal(
            expected as nat,
        ),
    }
}

impl IndexFault {
    /// What is wrong, in words.
    pub fn describe(&self) -> (text: String)
        ensures
            text@ == fault_text(*self),
    {
        let mut text = String::new();
        match *self {
            IndexFault::Short { len } => {
                text.append(to_decimal(len as u64).as_str());
                text.append(" bytes, shorter than the header");
            },
            IndexFault::Magic => {
                text.append("not a witness index (bad magic)");
            },
            IndexFault::Version { found } => {
                text.append("version ");
                text.append(to_decimal(found as u64).as_str());
                text.append(" (this code reads version ");
                text.append(to_decimal(VERSION as u64).as_str());
                text.append(")");
            },
            IndexFault::SegmentBits { found } => {
                text.append("segment bits ");
                text.append(to_decimal(found as u64).as_str());
                text.append(" (this code uses ");
                text.append(to_decimal(SEGMENT_BITS as u64).as_str());
                text.append(")");
            },
            IndexFault::Trailing { extra } => {
                text.append(to_decimal(extra as u64).as_str());
                text.append(" trailing bytes are not a whole entry");
            },
            IndexFault::Entry { number } => {
                text.append("entry ");
                text.append(to_decimal(number as u64).as_str());
                text.append(" is out of order or oversized");
            },
            IndexFault::MissingSegment { segment } => {
                text.append("entries point into missing segment ");
                text.append(to_decimal(segment).as_str());
            },
            IndexFault::SegmentLength { segment, position, expected } => {
                text.append("segment ");
                text.append(to_decimal(segment).as_str());
                text.append(" is ");
                text.append(to_decimal(position).as_str());
                text.append(" bytes, the index expects ");
                text.append(to_decimal(expected).as_str());
            },
        }
        assert(text@ =~= fault_text(*self));
        text
    }
}

/// What the header and the length of an index give away.
pub open spec fn shape_fault(bytes: Seq<u8>) -> Option<IndexFault> {
    if bytes.len() < HEADER_LEN {
        Some(IndexFault::Short { len: bytes.len() as usize })
    } else if bytes.take(4) != header_bytes().take(4) {
        Some(IndexFault::Magic)
    } else if bytes[4] != VERSION {
        Some(IndexFault::Version { found: bytes[4] })
    } else if bytes[6] != SEGMENT_BITS {
        Some(IndexFault::SegmentBits { found: bytes[6] })
    } else if (bytes.len() - HEADER_LEN) % (ENTRY_LEN as int) != 0 {
        Some(
            IndexFault::Trailing {
                extra: ((bytes.len() - HEADER_LEN) % (ENTRY_LEN as int)) as usize,
            },
        )
    } else {
        None
    }
}

/// The entries of an index, in block order.
pub open spec fn index_entries(bytes: Seq<u8>) -> Seq<Entry> {
    Seq::new(
        ((bytes.len() - HEADER_LEN) / (ENTRY_LEN as int)) as nat,
        |n: int|
            entry_of(
                bytes.subrange(HEADER_LEN + ENTRY_LEN * n, HEADER_LEN + ENTRY_LEN * n + ENTRY_LEN),
            ),
    )
}

/// Where the data of the first `n` entries ends.
pub open spec fn end_of(entries: Seq<Entry>, n: int) -> int {
    if n <= 0 {
        0
    } else {
        entries[n - 1].spec_end()
    }
}

/// Whether entry `n` starts before the one in front of it ends, is longer
/// than a segment, or starts less than a segment before the last offset.
pub open spec fn misplaced(entries: Seq<Entry>, n: int) -> bool {
    ||| entries[n].offset < end_of(entries, n)
    ||| entries[n].len > SEGMENT_SIZE
    ||| entries[n].offset + SEGMENT_SIZE > u64::MAX
}

/// Whether no entry is misplaced.
pub open spec fn ordered(entries: Seq<Entry>) -> bool {
    forall|n: int| 0 <= n < entries.len() ==> !#[trigger] misplaced(entries, n)
}

/// Whether `bytes` are an index.
pub open spec fn is_index(bytes: Seq<u8>) -> bool {
    shape_fault(bytes) is None && ordered(index_entries(bytes))
}

/// Whether `fault` is the first thing that is wrong with `bytes` as an index.
pub open spec fn is_fault_of(bytes: Seq<u8>, fault: IndexFault) -> bool {
    match shape_fault(bytes) {
        Some(found) => fault == found,
        None => {
            &&& fault matches IndexFault::Entry { number }
            &&& number < index_entries(bytes).len()
            &&& misplaced(index_entries(bytes), number as int)
            &&& forall|n: int|
                0 <= n < number ==> !#[trigger] misplaced(index_entries(bytes), n)
        },
    }
}

/// Checks an index and returns its entries.
pub fn read_index(bytes: &[u8]) -> (read: Result<Vec<Entry>, IndexFault>)
    ensures
        match read {
            Ok(entries) => is_index(bytes@) && entries@ == index_entries(bytes@),
            Err(fault) => is_fault_of(bytes@, fault),
        },
        read is Ok <==> is_index(bytes@),
{
    if bytes.len() < HEADER_LEN {
        return Err(IndexFault::Short { len: bytes.len() });
    }
    if bytes[0] != 0x4e || bytes[1] != 0x34 || bytes[2] != 0x32 || bytes[3] != 0x57 {
        proof {
            let (found, magic) = (bytes@.take(4), header_bytes().take(4));
            assert(found[0] != magic[0] || found[1] != magic[1] || found[2] != magic[2] || found[3]
                != magic[3]);
        }
        return Err(IndexFault::Magic);
    }
    assert(bytes@.take(4) =~= header_bytes().take(4));
    if bytes[4] != VERSION {
        return Err(IndexFault::Version { found: bytes[4] });
    }
    if bytes[6] != SEGMENT_BITS {
        return Err(IndexFault::SegmentBits { found: bytes[6] });
    }
    let body: usize = bytes.len() - HEADER_LEN;
    if body % ENTRY_LEN != 0 {
        return Err(IndexFault::Trailing { extra: body % ENTRY_LEN });
    }
    let count: usize = body / ENTRY_LEN;
    let ghost all = index_entries(bytes@);
    let mut entries: Vec<Entry> = Vec::new();
    let mut end: u64 = 0;
    let mut n: usize = 0;
    while n < count
        invariant
            n <= count,
            bytes.len() == HEADER_LEN + ENTRY_LEN * count,
            shape_fault(bytes@) is None,
            all == index_entries(bytes@),
            all.len() == count,
            entries@ == all.take(n as int),
            end == end_of(all, n as int),
            forall|m: int| 0 <= m < n ==> !#[trigger] misplaced(all, m),
        decreases count - n,
    {
        let at: usize = HEADER_LEN + ENTRY_LEN * n;
        let entry = Entry::from_bytes(vstd::slice::slice_subrange(bytes, at, at + ENTRY_LEN));
        assert(entry == all[n as int]);
        if entry.offset < end || entry.len as u64 > SEGMENT_SIZE || entry.offset > u64::MAX
            - SEGMENT_SIZE {
            assert(misplaced(all, n as int));
            return Err(IndexFault::Entry { number: n });
        }
        assert(!misplaced(all, n as int));
        end = entry.end();
        entries.push(entry);
        assert(all.take(n + 1) =~= all.take(n as int).push(entry));
        n = n + 1;
    }
    assert(all.take(count as int) =~= all);
    Ok(entries)
}

/// The entries behind the header, one after the other.
pub open spec fn body_bytes(entries: Seq<Entry>) -> Seq<u8>
    decreases entries.len(),
{
    if entries.len() == 0 {
        Seq::empty()
    } else {
        body_bytes(entries.drop_last()) + entry_bytes(entries.last())
    }
}

/// The index that holds `entries`.
pub open spec fn index_bytes(entries: Seq<Entry>) -> Seq<u8> {
    header_bytes() + body_bytes(entries)
}

/// The index that holds `entries`.
pub fn write_index(entries: &Vec<Entry>) -> (bytes: Vec<u8>)
    ensures
        bytes@ == index_bytes(entries@),
{
    let mut bytes: Vec<u8> = Vec::new();
    bytes.extend_from_slice(header().as_slice());
    assert(bytes@ =~= index_bytes(entries@.take(0)));
    let mut n: usize = 0;
    while n < entries.len()
        invariant
            n <= entries@.len(),
            bytes@ == index_bytes(entries@.take(n as int)),
        decreases entries@.len() - n,
    {
        let ghost before = bytes@;
        let mut entry = entries[n].to_bytes();
        bytes.append(&mut entry);
        assert(entries@.take(n + 1).drop_last() =~= entries@.take(n as int));
        assert(bytes@ =~= index_bytes(entries@.take(n + 1)));
        n = n + 1;
    }
    assert(entries@.take(n as int) =~= entries@);
    bytes
}

/// An entry behind an index makes it the index with that entry at its end.
pub proof fn law_index_grows_by_an_entry(bytes: Seq<u8>, entry: Entry)
    requires
        shape_fault(bytes) is None,
    ensures
        shape_fault(bytes + entry_bytes(entry)) is None,
        index_entries(bytes + entry_bytes(entry)) == index_entries(bytes).push(entry),
{
    law_entry_round_trip(entry);
    let longer = bytes + entry_bytes(entry);
    let count = index_entries(bytes).len() as int;
    assert(longer.take(4) =~= bytes.take(4));
    assert(bytes.len() == HEADER_LEN + ENTRY_LEN * count);
    assert(longer.len() == HEADER_LEN + ENTRY_LEN * (count + 1));
    assert(index_entries(longer).len() == count + 1);
    assert forall|n: int| 0 <= n <= count implies index_entries(longer)[n] == index_entries(
        bytes,
    ).push(entry)[n] by {
        let at = HEADER_LEN + ENTRY_LEN * n;
        if n < count {
            assert(longer.subrange(at, at + ENTRY_LEN) =~= bytes.subrange(at, at + ENTRY_LEN));
        } else {
            assert(longer.subrange(at, at + ENTRY_LEN) =~= entry_bytes(entry));
        }
    }
    assert(index_entries(longer) =~= index_entries(bytes).push(entry));
}

/// Reading an index that was written gives back its entries.
pub proof fn law_index_round_trip(entries: Seq<Entry>)
    ensures
        shape_fault(index_bytes(entries)) is None,
        index_entries(index_bytes(entries)) == entries,
        is_index(index_bytes(entries)) <==> ordered(entries),
    decreases entries.len(),
{
    if entries.len() == 0 {
        assert(index_bytes(entries) =~= header_bytes());
        assert(index_entries(header_bytes()) =~= entries);
    } else {
        law_index_round_trip(entries.drop_last());
        law_index_grows_by_an_entry(index_bytes(entries.drop_last()), entries.last());
        assert(index_bytes(entries) =~= index_bytes(entries.drop_last()) + entry_bytes(
            entries.last(),
        ));
        assert(entries.drop_last().push(entries.last()) =~= entries);
    }
}

/// Entries in order stay in order when their last ones are dropped.
pub proof fn law_truncation_keeps_order(entries: Seq<Entry>, n: int)
    requires
        ordered(entries),
        0 <= n <= entries.len(),
    ensures
        ordered(entries.take(n)),
{
    assert forall|m: int| 0 <= m < n implies !#[trigger] misplaced(entries.take(n), m) by {
        assert(!misplaced(entries, m));
    }
}

/// In order, no entry's data overlaps that of a later one.
pub proof fn law_entries_do_not_overlap(entries: Seq<Entry>, m: int, n: int)
    requires
        ordered(entries),
        0 <= m < n < entries.len(),
    ensures
        entries[m].spec_end() <= entries[n].offset,
        entries[m].spec_end() <= entries[n].spec_end(),
    decreases n,
{
    assert(!misplaced(entries, n));
    if m < n - 1 {
        law_entries_do_not_overlap(entries, m, n - 1);
    }
}

/// The name of the index file.
pub fn index_name() -> (name: &'static str)
    ensures
        name@ == "witness.idx"@,
{
    "witness.idx"
}

/// The name of a segment's file.
pub open spec fn segment_text(segment: nat) -> Seq<char> {
    "witness."@ + decimal4(segment) + ".dat"@
}

/// The name of a segment's file.
pub fn segment_name(segment: u64) -> (name: String)
    ensures
        name@ == segment_text(segment as nat),
{
    let mut name = String::new();
    name.append("witness.");
    name.append(to_decimal4(segment).as_str());
    name.append(".dat");
    assert(name@ =~= segment_text(segment as nat));
    name
}

/// Every segment has a file of its own, and none is the index.
pub proof fn law_files_are_distinct(m: nat, n: nat)
    ensures
        segment_text(m) == segment_text(n) ==> m == n,
        segment_text(m) != "witness.idx"@,
{
    reveal_strlit("witness.");
    reveal_strlit(".dat");
    reveal_strlit("witness.idx");
    let (a, b) = (segment_text(m), segment_text(n));
    assert(a.last() == 't');
    assert("witness.idx"@.last() == 'x');
    if a == b {
        assert(decimal4(m) =~= a.subrange(8, a.len() - 4));
        assert(decimal4(n) =~= b.subrange(8, b.len() - 4));
        law_decimal4_injective(m, n);
    }
}

/// How an entry is laid out: eight bytes that spell its offset and four that
/// spell its length, least significant first.
pub proof fn law_entry_layout(entry: Entry)
    ensures
        entry_bytes(entry).len() == 12,
        le_value(entry_bytes(entry).subrange(0, 8)) == entry.offset,
        le_value(entry_bytes(entry).subrange(8, 12)) == entry.len,
        entry.spec_end() == entry.offset + entry.len,
{
    lemma_pow256_values();
    lemma_le_bytes(entry.offset as nat, 8);
    lemma_le_bytes(entry.len as nat, 4);
    assert(entry_bytes(entry).subrange(0, 8) =~= le_bytes(entry.offset as nat, 8));
    assert(entry_bytes(entry).subrange(8, 12) =~= le_bytes(entry.len as nat, 4));
}

/// How an index is laid out: a header of sixteen bytes, and then twelve bytes
/// for every block, block `n` at entry `n`.
pub proof fn law_index_layout(bytes: Seq<u8>, n: int)
    requires
        bytes.len() >= 16,
    ensures
        index_entries(bytes).len() == (bytes.len() - 16) / 12,
        0 <= n < (bytes.len() - 16) / 12 ==> {
            &&& index_entries(bytes)[n].offset == le_value(
                bytes.subrange(16 + 12 * n, 24 + 12 * n),
            )
            &&& index_entries(bytes)[n].len == le_value(bytes.subrange(24 + 12 * n, 28 + 12 * n))
        },
{
    if 0 <= n < (bytes.len() - 16) / 12 {
        let at = bytes.subrange(16 + 12 * n, 28 + 12 * n);
        let (offset, len) = (
            bytes.subrange(16 + 12 * n, 24 + 12 * n),
            bytes.subrange(24 + 12 * n, 28 + 12 * n),
        );
        assert(at.take(8) =~= offset);
        assert(at.subrange(8, 12) =~= len);
        lemma_pow256_values();
        lemma_le_value(offset);
        lemma_le_value(len);
    }
}

/// The index that is written for entries: the header, and the entries one
/// behind the other.
pub proof fn law_written_index(entries: Seq<Entry>, entry: Entry)
    ensures
        index_bytes(Seq::empty()) == seq![
            0x4eu8, 0x34, 0x32, 0x57, 1, 0, 31, 0, 0, 0, 0, 0, 0, 0, 0, 0,
        ],
        index_bytes(entries.push(entry)) == index_bytes(entries) + entry_bytes(entry),
{
    assert(index_bytes(Seq::empty()) =~= header_bytes());
    assert(entries.push(entry).drop_last() =~= entries);
    assert(index_bytes(entries.push(entry)) =~= index_bytes(entries) + entry_bytes(entry));
}

/// What an index is: its first four bytes are the magic `N42W`, its version is
/// one and its segments are 2 to the 31 bytes long, it ends on a whole entry,
/// and every entry starts where the one before it ends or behind that, is no
/// longer than a segment, and starts at least a segment before the last offset.
pub proof fn law_what_an_index_is(bytes: Seq<u8>)
    ensures
        is_index(bytes) <==> {
            &&& bytes.len() >= 16
            &&& bytes[0] == 0x4e && bytes[1] == 0x34 && bytes[2] == 0x32 && bytes[3] == 0x57
            &&& bytes[4] == 1
            &&& bytes[6] == 31
            &&& (bytes.len() - 16) % 12 == 0
            &&& forall|n: int|
                #![trigger index_entries(bytes)[n]]
                0 <= n < index_entries(bytes).len() ==> {
                    let entry = index_entries(bytes)[n];
                    &&& n > 0 ==> index_entries(bytes)[n - 1].offset + index_entries(bytes)[n
                        - 1].len <= entry.offset
                    &&& entry.len <= 0x8000_0000
                    &&& entry.offset + 0x8000_0000 <= 0xffff_ffff_ffff_ffff
                }
        },
{
    let entries = index_entries(bytes);
    if bytes.len() >= 16 {
        let (found, magic) = (bytes.take(4), header_bytes().take(4));
        assert(magic[0] == 0x4e && magic[1] == 0x34 && magic[2] == 0x32 && magic[3] == 0x57);
        assert(found[0] == bytes[0] && found[1] == bytes[1] && found[2] == bytes[2] && found[3]
            == bytes[3]);
        if bytes[0] == 0x4e && bytes[1] == 0x34 && bytes[2] == 0x32 && bytes[3] == 0x57 {
            assert(found =~= magic);
        }
    }
    assert forall|n: int| 0 <= n < entries.len() implies (!#[trigger] misplaced(entries, n) <==> {
        &&& n > 0 ==> entries[n - 1].offset + entries[n - 1].len <= entries[n].offset
        &&& entries[n].len <= 0x8000_0000
        &&& entries[n].offset + 0x8000_0000 <= 0xffff_ffff_ffff_ffff
    }) by {}
    if ordered(entries) {
        assert forall|n: int|
            #![trigger entries[n]]
            0 <= n < entries.len() implies {
            &&& n > 0 ==> entries[n - 1].offset + entries[n - 1].len <= entries[n].offset
            &&& entries[n].len <= 0x8000_0000
            &&& entries[n].offset + 0x8000_0000 <= 0xffff_ffff_ffff_ffff
        } by {
            assert(!misplaced(entries, n));
        }
    }
}

/// What is wrong with an index, first of all: too short for the header, another
/// magic, another version, another segment size, a part of an entry at the end,
/// or the first entry that is out of order or oversized.
pub proof fn law_what_a_fault_is(bytes: Seq<u8>, fault: IndexFault)
    requires
        is_fault_of(bytes, fault),
    ensures
        !is_index(bytes),
        bytes.len() < 16 ==> fault == (IndexFault::Short { len: bytes.len() as usize }),
        bytes.len() >= 16 ==> {
            let magic = bytes[0] == 0x4e && bytes[1] == 0x34 && bytes[2] == 0x32 && bytes[3]
                == 0x57;
            let extra = (bytes.len() - 16) % 12;
            &&& !magic ==> fault == IndexFault::Magic
            &&& magic && bytes[4] != 1 ==> fault == (IndexFault::Version { found: bytes[4] })
            &&& magic && bytes[4] == 1 && bytes[6] != 31 ==> fault == (IndexFault::SegmentBits {
                found: bytes[6],
            })
            &&& magic && bytes[4] == 1 && bytes[6] == 31 && extra != 0 ==> fault == (
            IndexFault::Trailing { extra: extra as usize })
            &&& magic && bytes[4] == 1 && bytes[6] == 31 && extra == 0 ==> {
                let entries = index_entries(bytes);
                &&& fault matches IndexFault::Entry { number }
                &&& 0 <= number < entries.len()
                &&& {
                    ||| number > 0 && entries[number - 1].offset + entries[number - 1].len
                        > entries[number as int].offset
                    ||| entries[number as int].len > 0x8000_0000
                    ||| entries[number as int].offset + 0x8000_0000 > 0xffff_ffff_ffff_ffff
                }
                &&& forall|n: int|
                    #![trigger entries[n]]
                    0 <= n < number ==> {
                        &&& n > 0 ==> entries[n - 1].offset + entries[n - 1].len
                            <= entries[n].offset
                        &&& entries[n].len <= 0x8000_0000
                        &&& entries[n].offset + 0x8000_0000 <= 0xffff_ffff_ffff_ffff
                    }
            }
        },
{
    let entries = index_entries(bytes);
    if bytes.len() >= 16 {
        let (found, magic) = (bytes.take(4), header_bytes().take(4));
        assert(magic[0] == 0x4e && magic[1] == 0x34 && magic[2] == 0x32 && magic[3] == 0x57);
        assert(found[0] == bytes[0] && found[1] == bytes[1] && found[2] == bytes[2] && found[3]
            == bytes[3]);
        if bytes[0] == 0x4e && bytes[1] == 0x34 && bytes[2] == 0x32 && bytes[3] == 0x57 {
            assert(found =~= magic);
        }
    }
    if let IndexFault::Entry { number } = fault {
        if shape_fault(bytes) is None {
            assert(misplaced(entries, number as int));
            assert forall|n: int|
                #![trigger entries[n]]
                0 <= n < number implies {
                &&& n > 0 ==> entries[n - 1].offset + entries[n - 1].len <= entries[n].offset
                &&& entries[n].len <= 0x8000_0000
                &&& entries[n].offset + 0x8000_0000 <= 0xffff_ffff_ffff_ffff
            } by {
                assert(!misplaced(entries, n));
            }
        }
    }
}

/// What is said of each fault.
pub proof fn law_fault_words(a: usize, b: u8, c: u64, d: u64, e: u64)
    ensures
        fault_text(IndexFault::Short { len: a }) == decimal(a as nat)
            + " bytes, shorter than the header"@,
        fault_text(IndexFault::Magic) == "not a witness index (bad magic)"@,
        fault_text(IndexFault::Version { found: b }) == "version "@ + decimal(b as nat)
            + " (this code reads version 1)"@,
        fault_text(IndexFault::SegmentBits { found: b }) == "segment bits "@ + decimal(b as nat)
            + " (this code uses 31)"@,
        fault_text(IndexFault::Trailing { extra: a }) == decimal(a as nat)
            + " trailing bytes are not a whole entry"@,
        fault_text(IndexFault::Entry { number: a }) == "entry "@ + decimal(a as nat)
            + " is out of order or oversized"@,
        fault_text(IndexFault::MissingSegment { segment: c })
            == "entries point into missing segment "@ + decimal(c as nat),
        fault_text(IndexFault::SegmentLength { segment: c, position: d, expected: e })
            == "segment "@ + decimal(c as nat) + " is "@ + decimal(d as nat)
            + " bytes, the index expects "@ + decimal(e as nat),
{
    reveal_strlit(" (this code reads version 1)");
    reveal_strlit(" (this code reads version ");
    reveal_strlit(" (this code uses 31)");
    reveal_strlit(" (this code uses ");
    reveal_strlit(")");
    law_decimal_places(0, 1);
    law_decimal_places(3, 1);
    law_decimal_places(0, 3);
    assert(decimal(31) =~= seq!['3', '1']);
    assert(decimal(1) =~= seq!['1']);
    assert(" (this code reads version "@ + decimal(1) + ")"@
        =~= " (this code reads version 1)"@);
    assert(" (this code uses "@ + decimal(31) + ")"@ =~= " (this code uses 31)"@);
    assert(fault_text(IndexFault::Version { found: b }) =~= "version "@ + decimal(b as nat)
        + " (this code reads version 1)"@);
    assert(fault_text(IndexFault::SegmentBits { found: b }) =~= "segment bits "@ + decimal(
        b as nat,
    ) + " (this code uses 31)"@);
}

/// What a segment's file is called.
pub proof fn law_segment_names(n: nat)
    ensures
        n < 10000 ==> segment_text(n) == "witness."@ + seq![
            (0x30 + n / 1000) as char,
            (0x30 + n / 100 % 10) as char,
            (0x30 + n / 10 % 10) as char,
            (0x30 + n % 10) as char,
        ] + ".dat"@,
        n >= 10000 ==> segment_text(n) == "witness."@ + decimal(n) + ".dat"@,
{
    law_decimal4_digits(n);
}

/// What the first twelve bytes hold as an entry: its offset in eight of them
/// and its length in four, least significant first. What follows plays no part.
pub proof fn law_what_entry_bytes_hold(bytes: Seq<u8>)
    requires
        bytes.len() >= 12,
    ensures
        entry_of(bytes).offset == le_value(bytes.subrange(0, 8)),
        entry_of(bytes).len == le_value(bytes.subrange(8, 12)),
{
    assert(bytes.take(8) =~= bytes.subrange(0, 8));
    lemma_pow256_values();
    lemma_le_value(bytes.subrange(0, 8));
    lemma_le_value(bytes.subrange(8, 12));
}

} // verus!
