//! The witnesses of a chain, one entry per block.
//!
//! A store is an index ([`crate::index`]) and the data of its blocks
//! ([`crate::frame`]) in 2 GiB segments. Offsets count through the segments in
//! order, and no entry straddles two: the writer pads a segment's tail with
//! zeros instead.
//!
//! Nothing here touches a file. Opening a store for writing and appending to
//! one are sequences of [`OpenAction`]s and [`Action`]s: the driver performs
//! the one that is asked for, reports what came of it, and asks for the next.
//! [`crate::disk`] says what the actions do to the files.
//!
//! The writer is resumable. Opened for the block execution will resume at,
//! it drops whatever it had past that point (the entries of a batch that did
//! not commit, or of blocks execution has since unwound) and refuses to open
//! if it has fewer entries than that, because a gap can never be filled from
//! where execution stands.
use crate::frame::{
    decode_frame, decodes_as, encode_frame, frames_as, stored_frame, unframed, COMPRESS_FROM,
};
use crate::index::{
    end_of, index_bytes, index_entries, is_fault_of, is_index, misplaced, ordered, read_index,
    write_index, Entry, IndexFault, SEGMENT_SIZE,
};
use vstd::prelude::*;

verus! {

/// Why the store could not be used.
#[derive(Debug)]
#[allow(inconsistent_fields)]
pub enum StoreError {
    /// A stream could not be compressed.
    Io {
        /// The error.
        source: std::io::Error,
    },
    /// The index is not a witness index this code understands.
    Index {
        /// What is wrong with it.
        what: IndexFault,
    },
    /// The store ends before the block execution resumes at.
    Gap {
        /// Blocks in the store.
        recorded: u64,
        /// The block execution asked to append next.
        resume: u64,
    },
    /// The block appended is not the next one.
    OutOfOrder {
        /// The block the store expected.
        expected: u64,
        /// The block it was given.
        given: u64,
    },
    /// The block asked for is past the end of the store.
    Missing {
        /// Blocks in the store.
        recorded: u64,
        /// The block asked for.
        block: u64,
    },
    /// An entry's data does not decode.
    Corrupt {
        /// The block.
        block: u64,
        /// What is wrong with it.
        what: String,
    },
}

/// The segment that an offset lies in.
pub open spec fn segment_of(offset: int) -> int {
    offset / (SEGMENT_SIZE as int)
}

/// Where in its segment an offset lies.
pub open spec fn position_of(offset: int) -> int {
    offset % (SEGMENT_SIZE as int)
}

/// Where the frame of a block is to be read.
#[derive(Debug, Clone, Copy, PartialEq, Eq)]
pub struct Extent {
    pub segment: u64,
    pub position: u64,
    pub len: u32,
}

/// Where the frame of an entry lies; an empty witness has none.
pub open spec fn extent_of(entry: Entry) -> Option<Extent> {
    if entry.len == 0 {
        None
    } else {
        Some(
            Extent {
                segment: segment_of(entry.offset as int) as u64,
                position: position_of(entry.offset as int) as u64,
                len: entry.len,
            },
        )
    }
}

/// Reads witnesses from a store.
#[derive(Debug)]
pub struct WitnessStore {
    entries: Vec<Entry>,
}

impl WitnessStore {
    /// The entries of the store, in block order.
    pub closed spec fn entries(&self) -> Seq<Entry> {
        self.entries@
    }

    /// Opens the store whose index file holds `index`.
    pub fn open(index: &[u8]) -> (opened: Result<Self, StoreError>)
        ensures
            opened is Ok <==> is_index(index@),
            match opened {
                Ok(store) => store.entries() == index_entries(index@),
                Err(e) => e matches StoreError::Index { what } && is_fault_of(index@, what),
            },
    {
        match read_index(index) {
            Ok(entries) => Ok(Self { entries }),
            Err(what) => Err(StoreError::Index { what }),
        }
    }

    /// Blocks in the store, counting from 0.
    pub fn blocks(&self) -> (blocks: u64)
        ensures
            blocks == self.entries().len(),
    {
        self.entries.len() as u64
    }

    /// Where the frame of `block` is to be read; nowhere, if its witness is
    /// empty.
    pub fn locate(&self, block: u64) -> (place: Result<Option<Extent>, StoreError>)
        ensures
            place is Ok <==> block < self.entries().len(),
            match place {
                Ok(extent) => extent == extent_of(self.entries()[block as int]),
                Err(e) => e == (StoreError::Missing { recorded: self.entries().len() as u64, block }),
            },
            place matches Ok(extent) ==> {
                &&& extent is None <==> self.entries()[block as int].len == 0
                &&& extent matches Some(Extent { segment, position, len }) ==> {
                    &&& segment * 0x8000_0000 + position == self.entries()[block as int].offset
                    &&& position < 0x8000_0000
                    &&& len == self.entries()[block as int].len
                }
            },
    {
        if block >= self.entries.len() as u64 {
            return Err(StoreError::Missing { recorded: self.blocks(), block });
        }
        let entry = self.entries[block as usize];
        if entry.len == 0 {
            return Ok(None);
        }
        Ok(
            Some(
                Extent {
                    segment: entry.offset / SEGMENT_SIZE,
                    position: entry.offset % SEGMENT_SIZE,
                    len: entry.len,
                },
            ),
        )
    }

    /// Reads the witness of `block` into `out`, replacing its contents.
    /// `frame` is what lies where [`WitnessStore::locate`] says; it plays no
    /// part where that is nowhere.
    ///
    /// A compressed frame fails where its decompression does.
    pub fn read(&self, block: u64, frame: &[u8], out: &mut Vec<u8>) -> (done: Result<(), StoreError>)
        requires
            block < self.entries().len() ==> frame@.len() == self.entries()[block as int].len,
        ensures
            block >= self.entries().len() ==> {
                &&& done == Err::<(), StoreError>(
                    StoreError::Missing { recorded: self.entries().len() as u64, block },
                )
                &&& final(out)@ == Seq::<u8>::empty()
            },
            block < self.entries().len() && frame@.len() == 0 ==> {
                &&& done is Ok
                &&& final(out)@ == Seq::<u8>::empty()
            },
            block < self.entries().len() && frame@.len() > 0 ==> {
                &&& done is Ok ==> unframed(frame@) == Some(final(out)@)
                &&& match done {
                    Ok(()) => decodes_as(frame@, final(out)@, Ok(())),
                    Err(StoreError::Corrupt { block: corrupt, what }) => corrupt == block
                        && decodes_as(frame@, final(out)@, Err(what)),
                    Err(_) => false,
                }
            },
    {
        out.clear();
        if block >= self.entries.len() as u64 {
            return Err(StoreError::Missing { recorded: self.blocks(), block });
        }
        if self.entries[block as usize].len == 0 {
            return Ok(());
        }
        match decode_frame(frame, out) {
            Ok(()) => Ok(()),
            Err(what) => Err(StoreError::Corrupt { block, what }),
        }
    }
}

/// The state of a writer.
pub struct Writer {
    /// Blocks in the store.
    pub blocks: int,
    /// Where the next entry's data goes.
    pub next_offset: int,
    /// The segment that is open for appending.
    pub segment: Option<int>,
}

/// Appends witnesses to a store.
#[derive(Debug)]
pub struct WitnessWriter {
    blocks: u64,
    next_offset: u64,
    segment: Option<u64>,
}

impl View for WitnessWriter {
    type V = Writer;

    closed spec fn view(&self) -> Writer {
        Writer {
            blocks: self.blocks as int,
            next_offset: self.next_offset as int,
            segment: match self.segment {
                Some(segment) => Some(segment as int),
                None => None,
            },
        }
    }
}

/// What opening a store for writing needs done next.
#[derive(Debug, Clone, Copy, PartialEq, Eq)]
pub enum OpenAction {
    /// Replace the index file by the bytes of [`Opening::index`].
    WriteIndex,
    /// Look whether the segment's file is there.
    ProbeSegment { segment: u64 },
    /// Remove the segment's file.
    RemoveSegment { segment: u64 },
    /// Set the length of the segment's file.
    CutSegment { segment: u64, len: u64 },
    /// Nothing more: the writer can be taken.
    Ready,
}

/// What came of an [`OpenAction`].
#[derive(Debug, Clone, Copy, PartialEq, Eq)]
pub enum OpenEvent {
    /// It was done.
    Done,
    /// The file is there.
    Present,
    /// The file is not there.
    Absent,
}

/// How far the opening of a store has come.
#[derive(Debug, Clone, Copy, PartialEq, Eq)]
pub enum OpenStage {
    /// The index is to be written.
    Index,
    /// A segment past the end of the data is looked for.
    Probe { segment: u64 },
    /// A segment past the end of the data is to be removed.
    Remove { segment: u64 },
    /// The segment in which the data ends is looked for.
    ProbeLast,
    /// The segment in which the data ends is to be cut there.
    Cut,
    /// All is done.
    Open,
}

/// The state of an opening: the index to write, the blocks that are kept,
/// where their data ends, and how far it has come.
#[verifier::ext_equal]
pub struct OpeningState {
    pub index: Seq<u8>,
    pub blocks: int,
    pub end: int,
    pub stage: OpenStage,
}

/// The opening of a store for writing.
#[derive(Debug)]
pub struct Opening {
    index: Vec<u8>,
    blocks: u64,
    end: u64,
    stage: OpenStage,
}

impl View for Opening {
    type V = OpeningState;

    closed spec fn view(&self) -> OpeningState {
        OpeningState {
            index: self.index@,
            blocks: self.blocks as int,
            end: self.end as int,
            stage: self.stage,
        }
    }
}

/// The entries that a store holds before it is opened at `next_block`. A store
/// without entries that is opened at block 1 has block 0's empty one:
/// execution never runs that block.
pub open spec fn recorded_entries(index: Option<Seq<u8>>, next_block: int) -> Seq<Entry> {
    let entries = match index {
        Some(bytes) => index_entries(bytes),
        None => Seq::empty(),
    };
    if entries.len() == 0 && next_block == 1 {
        seq![Entry { offset: 0, len: 0 }]
    } else {
        entries
    }
}

/// The opening that keeps the first `next_block` of `entries`, at its start.
pub open spec fn opening_of(entries: Seq<Entry>, next_block: int) -> OpeningState {
    OpeningState {
        index: index_bytes(entries.take(next_block)),
        blocks: next_block,
        end: end_of(entries, next_block),
        stage: OpenStage::Index,
    }
}

/// What an opening needs done next.
pub open spec fn open_action(o: OpeningState) -> OpenAction {
    match o.stage {
        OpenStage::Index => OpenAction::WriteIndex,
        OpenStage::Probe { segment } => OpenAction::ProbeSegment { segment },
        OpenStage::Remove { segment } => OpenAction::RemoveSegment { segment },
        OpenStage::ProbeLast => OpenAction::ProbeSegment { segment: segment_of(o.end) as u64 },
        OpenStage::Cut => OpenAction::CutSegment {
            segment: segment_of(o.end) as u64,
            len: position_of(o.end) as u64,
        },
        OpenStage::Open => OpenAction::Ready,
    }
}

/// Whether `event` can come of what the opening needs done. (There is no
/// segment behind the last number.)
pub open spec fn open_expects(o: OpeningState, event: OpenEvent) -> bool {
    match o.stage {
        OpenStage::Probe { .. } | OpenStage::ProbeLast => event != OpenEvent::Done,
        OpenStage::Remove { segment } => event == OpenEvent::Done && segment < u64::MAX,
        OpenStage::Open => false,
        _ => event == OpenEvent::Done,
    }
}

/// The stage that follows an event.
pub open spec fn open_next(o: OpeningState, event: OpenEvent) -> Result<OpenStage, IndexFault> {
    match o.stage {
        OpenStage::Index => Ok(OpenStage::Probe { segment: (segment_of(o.end) + 1) as u64 }),
        OpenStage::Probe { segment } => Ok(
            if event == OpenEvent::Present {
                OpenStage::Remove { segment }
            } else {
                OpenStage::ProbeLast
            },
        ),
        OpenStage::Remove { segment } => Ok(OpenStage::Probe { segment: (segment + 1) as u64 }),
        OpenStage::ProbeLast => if event == OpenEvent::Present {
            Ok(OpenStage::Cut)
        } else if position_of(o.end) != 0 {
            Err(IndexFault::MissingSegment { segment: segment_of(o.end) as u64 })
        } else {
            Ok(OpenStage::Open)
        },
        OpenStage::Cut => Ok(OpenStage::Open),
        OpenStage::Open => Ok(OpenStage::Open),
    }
}

impl Opening {
    /// The bytes that the index file is to hold.
    pub fn index(&self) -> (bytes: &Vec<u8>)
        ensures
            bytes@ == self@.index,
    {
        &self.index
    }

    /// What is to be done next.
    pub fn action(&self) -> (action: OpenAction)
        ensures
            action == open_action(self@),
    {
        match self.stage {
            OpenStage::Index => OpenAction::WriteIndex,
            OpenStage::Probe { segment } => OpenAction::ProbeSegment { segment },
            OpenStage::Remove { segment } => OpenAction::RemoveSegment { segment },
            OpenStage::ProbeLast => OpenAction::ProbeSegment { segment: self.end / SEGMENT_SIZE },
            OpenStage::Cut => OpenAction::CutSegment {
                segment: self.end / SEGMENT_SIZE,
                len: self.end % SEGMENT_SIZE,
            },
            OpenStage::Open => OpenAction::Ready,
        }
    }

    /// Goes on from what came of the last action.
    pub fn step(&mut self, event: OpenEvent) -> (went: Result<(), StoreError>)
        requires
            open_expects(old(self)@, event),
        ensures
            match open_next(old(self)@, event) {
                Ok(stage) => went is Ok && final(self)@ == (OpeningState { stage, ..old(self)@ }),
                Err(what) => went == Err::<(), StoreError>(StoreError::Index { what })
                    && final(self)@ == old(self)@,
            },
    {
        self.stage = match self.stage {
            OpenStage::Index => OpenStage::Probe { segment: self.end / SEGMENT_SIZE + 1 },
            OpenStage::Probe { segment } => match event {
                OpenEvent::Present => OpenStage::Remove { segment },
                _ => OpenStage::ProbeLast,
            },
            OpenStage::Remove { segment } => OpenStage::Probe { segment: segment + 1 },
            OpenStage::ProbeLast => match event {
                OpenEvent::Present => OpenStage::Cut,
                _ => {
                    if self.end % SEGMENT_SIZE != 0 {
                        let segment: u64 = self.end / SEGMENT_SIZE;
                        return Err(
                            StoreError::Index { what: IndexFault::MissingSegment { segment } },
                        );
                    }
                    OpenStage::Open
                },
            },
            OpenStage::Cut => OpenStage::Open,
            OpenStage::Open => OpenStage::Open,
        };
        Ok(())
    }

    /// The writer of the store, once it is open.
    pub fn into_writer(self) -> (writer: WitnessWriter)
        requires
            self@.stage == OpenStage::Open,
        ensures
            writer@ == (Writer { blocks: self@.blocks, next_offset: self@.end, segment: None }),
    {
        WitnessWriter { blocks: self.blocks, next_offset: self.end, segment: None }
    }
}

/// What an index file holds, if there is one.
pub open spec fn index_content(index: Option<&[u8]>) -> Option<Seq<u8>> {
    match index {
        Some(bytes) => Some(bytes@),
        None => None,
    }
}

/// Whether `opening` is what opening a store at `next_block` comes to: its
/// start, or the refusal of an index that is none or that has too few entries.
pub open spec fn opens(
    index: Option<Seq<u8>>,
    next_block: int,
    opening: Result<Opening, StoreError>,
) -> bool {
    let entries = recorded_entries(index, next_block);
    match opening {
        Ok(opening) => {
            &&& index is Some ==> is_index(index->0)
            &&& next_block <= entries.len()
            &&& opening@ == opening_of(entries, next_block)
        },
        Err(StoreError::Index { what }) => {
            &&& index is Some
            &&& !is_index(index->0)
            &&& is_fault_of(index->0, what)
        },
        Err(StoreError::Gap { recorded, resume }) => {
            &&& index is Some ==> is_index(index->0)
            &&& recorded == entries.len()
            &&& resume == next_block
            &&& recorded < next_block
        },
        Err(_) => false,
    }
}

impl WitnessWriter {
    /// Opens a store for appending the witness of `next_block` and the blocks
    /// after it. `index` is what its index file holds, if there is one.
    ///
    /// Refused are an index that is none, and one with fewer than `next_block`
    /// entries.
    pub fn open(index: Option<&[u8]>, next_block: u64) -> (opening: Result<Opening, StoreError>)
        ensures
            opens(index_content(index), next_block as int, opening),
    {
        let mut entries: Vec<Entry> = match index {
            Some(bytes) => match read_index(bytes) {
                Ok(entries) => entries,
                Err(what) => return Err(StoreError::Index { what }),
            },
            None => Vec::new(),
        };
        if entries.len() == 0 && next_block == 1 {
            entries.push(Entry { offset: 0, len: 0 });
        }
        let ghost recorded_before = entries@;
        proof {
            assert(entries@ =~= recorded_entries(index_content(index), next_block as int));
            assert(ordered(entries@));
        }
        let recorded: u64 = entries.len() as u64;
        if recorded < next_block {
            return Err(StoreError::Gap { recorded, resume: next_block });
        }
        entries.truncate(next_block as usize);
        assert(entries@ =~= recorded_before.take(next_block as int));
        let mut end: u64 = 0;
        if entries.len() > 0 {
            let last = entries[entries.len() - 1];
            proof {
                assert(!misplaced(recorded_before, next_block - 1));
            }
            end = last.end();
        }
        assert(end == end_of(recorded_before, next_block as int));
        Ok(
            Opening {
                index: write_index(&entries),
                blocks: next_block,
                end,
                stage: OpenStage::Index,
            },
        )
    }

    /// Blocks in the store, counting from 0.
    pub fn blocks(&self) -> (blocks: u64)
        ensures
            blocks == self@.blocks,
    {
        self.blocks
    }
}

/// What appending a witness needs done next.
#[derive(Debug, Clone, Copy, PartialEq, Eq)]
pub enum Action {
    /// Write what is buffered for the open segment, have its data reach the
    /// disk, and close it.
    FlushSegment,
    /// Open the segment's file for appending, creating it if it is not there,
    /// and report its length.
    OpenSegment { segment: u64 },
    /// Append zeros to the open segment.
    WriteZeros { count: u64 },
    /// Append the bytes of [`Append::frame`] to the open segment.
    WriteFrame,
    /// Append the entry to those that wait for the index file. They reach it
    /// with the next flush, and not before: by then the data they point at is
    /// on disk.
    WriteEntry { entry: Entry },
    /// Nothing more.
    Finished,
}

/// What came of an [`Action`].
#[derive(Debug, Clone, Copy, PartialEq, Eq)]
pub enum Event {
    /// It was done.
    Done,
    /// The segment was opened, and is this long.
    Length { position: u64 },
    /// It failed.
    Failed,
}

/// What the open segment is for.
#[derive(Debug, Clone, Copy, PartialEq, Eq)]
pub enum Goal {
    /// To be filled up with zeros.
    Pad,
    /// To take the frame.
    Frame,
}

/// How far an append has come.
#[derive(Debug, Clone, Copy, PartialEq, Eq)]
pub enum Stage {
    /// The segment of an earlier append is to be flushed.
    Flush,
    /// The segment is to be opened.
    Open,
    /// The segment is to be written to.
    Write,
    /// The entry is to be written.
    Index { entry: Entry },
    /// All is done, or it failed.
    End,
}

/// The state of an append.
#[verifier::ext_equal]
pub struct AppendState {
    pub frame: Seq<u8>,
    pub goal: Goal,
    pub stage: Stage,
}

/// The append of one witness to a store.
#[derive(Debug)]
pub struct Append {
    frame: Vec<u8>,
    goal: Goal,
    stage: Stage,
}

impl View for Append {
    type V = AppendState;

    closed spec fn view(&self) -> AppendState {
        AppendState { frame: self.frame@, goal: self.goal, stage: self.stage }
    }
}

impl Append {
    /// The bytes that the segment is to take.
    pub fn frame(&self) -> (bytes: &Vec<u8>)
        ensures
            bytes@ == self@.frame,
    {
        &self.frame
    }
}

impl Writer {
    /// The segment that the next entry's data goes to.
    pub open spec fn wanted(self) -> int {
        segment_of(self.next_offset)
    }

    /// Where in that segment it goes.
    pub open spec fn position(self) -> int {
        position_of(self.next_offset)
    }

    /// How many zeros fill that segment up.
    pub open spec fn pad(self) -> int {
        SEGMENT_SIZE - self.position()
    }

    /// The writer without the open segment, if that is not the one wanted.
    pub open spec fn reaching(self) -> Writer {
        if self.segment == Some(self.wanted()) {
            self
        } else {
            Writer { segment: None, ..self }
        }
    }

    /// What it takes first to have the wanted segment open.
    pub open spec fn reach_stage(self) -> Stage {
        if self.segment == Some(self.wanted()) {
            Stage::Write
        } else if self.segment is Some {
            Stage::Flush
        } else {
            Stage::Open
        }
    }
}

/// The entry of a frame written at `offset`.
pub open spec fn entry_for(offset: int, frame: Seq<u8>) -> Entry {
    Entry { offset: offset as u64, len: frame.len() as u32 }
}

/// The writer and the append at the start, with `frame` to be written. A frame
/// that does not fit behind the last one is preceded by padding; an empty
/// witness has no frame, and only its entry is written.
pub open spec fn append_start(w: Writer, frame: Seq<u8>) -> (Writer, AppendState) {
    if frame.len() == 0 {
        (
            w,
            AppendState {
                frame,
                goal: Goal::Frame,
                stage: Stage::Index { entry: entry_for(w.next_offset, frame) },
            },
        )
    } else {
        let goal = if w.position() + frame.len() > SEGMENT_SIZE {
            Goal::Pad
        } else {
            Goal::Frame
        };
        (w.reaching(), AppendState { frame, goal, stage: w.reach_stage() })
    }
}

/// What an append needs done next.
pub open spec fn append_action(w: Writer, a: AppendState) -> Action {
    match a.stage {
        Stage::Flush => Action::FlushSegment,
        Stage::Open => Action::OpenSegment { segment: w.wanted() as u64 },
        Stage::Write => match a.goal {
            Goal::Pad => Action::WriteZeros { count: w.pad() as u64 },
            Goal::Frame => Action::WriteFrame,
        },
        Stage::Index { entry } => Action::WriteEntry { entry },
        Stage::End => Action::Finished,
    }
}

/// Whether `event` can come of what the append needs done.
pub open spec fn append_expects(a: AppendState, event: Event) -> bool {
    match a.stage {
        Stage::End => false,
        Stage::Open => event != Event::Done,
        _ => event == Event::Done || event == Event::Failed,
    }
}

/// Whether the frame fits a segment, and the offsets and the block number that
/// the rest of the append comes to are 64-bit numbers.
pub open spec fn append_has_room(w: Writer, a: AppendState) -> bool {
    let ahead = match a.stage {
        Stage::Index { .. } | Stage::End => 0,
        _ => a.frame.len() + (if a.goal == Goal::Pad {
            w.pad()
        } else {
            0
        }),
    };
    &&& a.frame.len() <= SEGMENT_SIZE
    &&& 0 <= w.next_offset
    &&& w.next_offset + ahead <= u64::MAX
    &&& 0 <= w.blocks
    &&& a.stage != Stage::End ==> w.blocks < u64::MAX
}

/// The writer and the append after an event, and what the append ends on if
/// the segment is not as long as the index has it.
pub open spec fn append_next(w: Writer, a: AppendState, event: Event) -> (
    Writer,
    AppendState,
    Option<IndexFault>,
) {
    if event == Event::Failed {
        (w, AppendState { stage: Stage::End, ..a }, None)
    } else {
        match a.stage {
            Stage::Flush => (w, AppendState { stage: Stage::Open, ..a }, None),
            Stage::Open => {
                let position = event->position;
                if position != w.position() {
                    let fault = IndexFault::SegmentLength {
                        segment: w.wanted() as u64,
                        position,
                        expected: w.position() as u64,
                    };
                    (w, AppendState { stage: Stage::End, ..a }, Some(fault))
                } else {
                    (
                        Writer { segment: Some(w.wanted()), ..w },
                        AppendState { stage: Stage::Write, ..a },
                        None,
                    )
                }
            },
            Stage::Write => match a.goal {
                Goal::Pad => {
                    let padded = Writer { next_offset: w.next_offset + w.pad(), ..w };
                    (
                        padded.reaching(),
                        AppendState { goal: Goal::Frame, stage: padded.reach_stage(), ..a },
                        None,
                    )
                },
                Goal::Frame => (
                    Writer { next_offset: w.next_offset + a.frame.len(), ..w },
                    AppendState {
                        stage: Stage::Index { entry: entry_for(w.next_offset, a.frame) },
                        ..a
                    },
                    None,
                ),
            },
            Stage::Index { .. } => (
                Writer { blocks: w.blocks + 1, ..w },
                AppendState { stage: Stage::End, ..a },
                None,
            ),
            Stage::End => (w, a, None),
        }
    }
}

/// What a flush needs done, in this order, up to the first failure.
#[derive(Debug, Clone, Copy, PartialEq, Eq)]
pub enum FlushAction {
    /// Write what is buffered for the open segment.
    FlushSegment,
    /// Have the open segment's data reach the disk.
    SyncSegment,
    /// Write the entries that wait for the index file.
    FlushIndex,
    /// Have the index's data reach the disk.
    SyncIndex,
}

/// What a flush needs done: data before index, so that no entry that a flush
/// writes points at bytes that did not make it.
pub open spec fn flush_actions(w: Writer) -> Seq<FlushAction> {
    if w.segment is Some {
        seq![
            FlushAction::FlushSegment,
            FlushAction::SyncSegment,
            FlushAction::FlushIndex,
            FlushAction::SyncIndex,
        ]
    } else {
        seq![FlushAction::FlushIndex, FlushAction::SyncIndex]
    }
}

/// The frame that a stream is stored as; an empty one has none.
pub open spec fn frame_of(stream: Seq<u8>) -> Seq<u8> {
    if stream.len() == 0 {
        Seq::empty()
    } else {
        stored_frame(stream)
    }
}

/// Whether `started` and the writer `after` are what starting to append the
/// witness of block `number` comes to: the start of the append, the refusal of
/// a block that is not the next one, or a failure to compress a stream that is
/// long enough for that.
pub open spec fn appends(
    before: Writer,
    after: Writer,
    number: int,
    stream: Seq<u8>,
    started: Result<Append, StoreError>,
) -> bool {
    match started {
        Ok(append) => {
            &&& number == before.blocks
            &&& (after, append@) == append_start(before, frame_of(stream))
            &&& append_has_room(after, append@)
            &&& stream.len() > 0 ==> unframed(frame_of(stream)) == Some(stream)
        },
        Err(StoreError::OutOfOrder { expected, given }) => {
            &&& number != before.blocks
            &&& expected == before.blocks
            &&& given == number
            &&& after == before
        },
        Err(StoreError::Io { source }) => {
            &&& number == before.blocks
            &&& stream.len() >= COMPRESS_FROM
            &&& frames_as(stream, Err(source))
            &&& after == before
        },
        Err(_) => false,
    }
}

/// Whether `started` and the writer `after` are what starting to append the
/// witness of block `number`, if it fits, comes to: nothing is started where
/// its frame has no room, and else it is as [`appends`] says.
pub open spec fn appends_if_fits(
    before: Writer,
    after: Writer,
    number: int,
    stream: Seq<u8>,
    started: Result<Option<Append>, StoreError>,
) -> bool {
    match started {
        Ok(None) => {
            &&& number == before.blocks
            &&& !has_room_for(before, number, frame_of(stream).len() as int)
            &&& after == before
        },
        Ok(Some(append)) => {
            &&& has_room_for(before, number, frame_of(stream).len() as int)
            &&& appends(before, after, number, stream, Ok(append))
        },
        Err(e) => appends(before, after, number, stream, Err(e)),
    }
}

/// Whether a frame of `len` bytes can be appended as block `number`. One that
/// is not the next block is refused whatever it is. Otherwise the frame has to
/// fit a segment, and the offsets and the block number that appending it may
/// come to have to be 64-bit numbers.
pub open spec fn has_room_for(w: Writer, number: int, len: int) -> bool {
    number == w.blocks ==> {
        &&& w.blocks < u64::MAX
        &&& len > 0 ==> len <= SEGMENT_SIZE && w.next_offset + SEGMENT_SIZE + len <= u64::MAX
    }
}

/// How long the frame of a stream of `len` bytes can be.
pub open spec fn longest_frame(len: int) -> int {
    if len == 0 {
        0
    } else {
        len + 1
    }
}

/// Frames a stream; an empty one has no frame.
fn frame_stream(stream: &[u8]) -> (framed: Result<Vec<u8>, std::io::Error>)
    ensures
        match framed {
            Ok(frame) => {
                &&& frame@ == frame_of(stream@)
                &&& frame@.len() <= longest_frame(stream@.len() as int)
                &&& stream@.len() > 0 ==> unframed(frame@) == Some(stream@)
            },
            Err(e) => stream@.len() >= COMPRESS_FROM && frames_as(stream@, Err(e)),
        },
{
    if stream.len() == 0 {
        let frame: Vec<u8> = Vec::new();
        assert(frame@ =~= frame_of(stream@));
        return Ok(frame);
    }
    encode_frame(stream)
}

impl WitnessWriter {
    /// Whether a frame of `len` bytes can be appended as block `number`.
    fn has_room(&self, number: u64, len: usize) -> (room: bool)
        ensures
            room == has_room_for(self@, number as int, len as int),
    {
        if number != self.blocks {
            return true;
        }
        let free: u64 = u64::MAX - self.next_offset;
        let len: u64 = len as u64;
        self.blocks < u64::MAX && (len == 0 || len <= SEGMENT_SIZE && free >= SEGMENT_SIZE && free
            - SEGMENT_SIZE >= len)
    }

    /// Starts to append the witness of block `number`, which must be the next
    /// one.
    ///
    /// Only a stream that is long enough to be compressed can fail otherwise,
    /// and does where its compression does.
    pub fn append(&mut self, number: u64, stream: &[u8]) -> (started: Result<Append, StoreError>)
        requires
            has_room_for(old(self)@, number as int, longest_frame(stream@.len() as int)),
        ensures
            appends(old(self)@, final(self)@, number as int, stream@, started),
    {
        if number != self.blocks {
            return Err(StoreError::OutOfOrder { expected: self.blocks, given: number });
        }
        let frame = match frame_stream(stream) {
            Ok(frame) => frame,
            Err(source) => return Err(StoreError::Io { source }),
        };
        self.append_frame(number, frame)
    }

    /// Starts to append the witness of block `number`, which must be the next
    /// one, if its frame fits a segment and the offsets and the block number
    /// that it comes to are 64-bit numbers. A stream that is too long for
    /// [`WitnessWriter::append`] may have a frame that fits.
    ///
    /// Only a stream that is long enough to be compressed can fail otherwise,
    /// and does where its compression does.
    pub fn append_if_fits(&mut self, number: u64, stream: &[u8]) -> (started: Result<
        Option<Append>,
        StoreError,
    >)
        ensures
            appends_if_fits(old(self)@, final(self)@, number as int, stream@, started),
    {
        if number != self.blocks {
            return Err(StoreError::OutOfOrder { expected: self.blocks, given: number });
        }
        let frame = match frame_stream(stream) {
            Ok(frame) => frame,
            Err(source) => return Err(StoreError::Io { source }),
        };
        if !self.has_room(number, frame.len()) {
            return Ok(None);
        }
        match self.append_frame(number, frame) {
            Ok(append) => Ok(Some(append)),
            Err(e) => Err(e),
        }
    }

    /// Starts to append block `number`, which must be the next one, with its
    /// witness in its frame already; an empty witness has none.
    fn append_frame(&mut self, number: u64, frame: Vec<u8>) -> (started: Result<
        Append,
        StoreError,
    >)
        requires
            has_room_for(old(self)@, number as int, frame@.len() as int),
        ensures
            match started {
                Ok(append) => {
                    &&& number == old(self)@.blocks
                    &&& (final(self)@, append@) == append_start(old(self)@, frame@)
                    &&& append_has_room(final(self)@, append@)
                },
                Err(e) => {
                    &&& number != old(self)@.blocks
                    &&& e == (StoreError::OutOfOrder {
                        expected: old(self)@.blocks as u64,
                        given: number,
                    })
                    &&& final(self)@ == old(self)@
                },
            },
    {
        if number != self.blocks {
            return Err(StoreError::OutOfOrder { expected: self.blocks, given: number });
        }
        if frame.len() == 0 {
            let entry = Entry { offset: self.next_offset, len: 0 };
            return Ok(Append { frame, goal: Goal::Frame, stage: Stage::Index { entry } });
        }
        let in_segment: u64 = self.next_offset % SEGMENT_SIZE;
        let goal = if frame.len() as u64 > SEGMENT_SIZE - in_segment {
            Goal::Pad
        } else {
            Goal::Frame
        };
        let stage = self.reach_segment();
        Ok(Append { frame, goal, stage })
    }

    /// Sees to it that no other segment than the wanted one counts as open,
    /// and says what it takes to have that one open.
    fn reach_segment(&mut self) -> (stage: Stage)
        ensures
            final(self)@ == old(self)@.reaching(),
            stage == old(self)@.reach_stage(),
    {
        let wanted: u64 = self.next_offset / SEGMENT_SIZE;
        match self.segment {
            Some(segment) => {
                if segment == wanted {
                    Stage::Write
                } else {
                    self.segment = None;
                    Stage::Flush
                }
            },
            None => Stage::Open,
        }
    }

    /// What is to be done next for `append`.
    pub fn action(&self, append: &Append) -> (action: Action)
        ensures
            action == append_action(self@, append@),
    {
        match append.stage {
            Stage::Flush => Action::FlushSegment,
            Stage::Open => Action::OpenSegment { segment: self.next_offset / SEGMENT_SIZE },
            Stage::Write => match append.goal {
                Goal::Pad => Action::WriteZeros {
                    count: SEGMENT_SIZE - self.next_offset % SEGMENT_SIZE,
                },
                Goal::Frame => Action::WriteFrame,
            },
            Stage::Index { entry } => Action::WriteEntry { entry },
            Stage::End => Action::Finished,
        }
    }

    /// Goes on with `append` from what came of its last action.
    pub fn step(&mut self, append: &mut Append, event: Event) -> (went: Result<(), StoreError>)
        requires
            append_expects(old(append)@, event),
            append_has_room(old(self)@, old(append)@),
        ensures
            append_has_room(final(self)@, final(append)@),
            ({
                let (w, a, fault) = append_next(old(self)@, old(append)@, event);
                &&& final(self)@ == w
                &&& final(append)@ == a
                &&& match fault {
                    Some(what) => went == Err::<(), StoreError>(StoreError::Index { what }),
                    None => went is Ok,
                }
            }),
    {
        if let Event::Failed = event {
            append.stage = Stage::End;
            return Ok(());
        }
        match append.stage {
            Stage::Flush => {
                append.stage = Stage::Open;
            },
            Stage::Open => {
                let segment: u64 = self.next_offset / SEGMENT_SIZE;
                let expected: u64 = self.next_offset % SEGMENT_SIZE;
                if let Event::Length { position } = event {
                    if position != expected {
                        append.stage = Stage::End;
                        return Err(
                            StoreError::Index {
                                what: IndexFault::SegmentLength { segment, position, expected },
                            },
                        );
                    }
                }
                self.segment = Some(segment);
                append.stage = Stage::Write;
            },
            Stage::Write => match append.goal {
                Goal::Pad => {
                    let pad: u64 = SEGMENT_SIZE - self.next_offset % SEGMENT_SIZE;
                    self.next_offset = self.next_offset + pad;
                    append.goal = Goal::Frame;
                    append.stage = self.reach_segment();
                },
                Goal::Frame => {
                    let len: u64 = append.frame.len() as u64;
                    let entry = Entry {
                        offset: self.next_offset,
                        len: len as u32,
                    };
                    self.next_offset = self.next_offset + len;
                    append.stage = Stage::Index { entry };
                },
            },
            Stage::Index { .. } => {
                self.blocks = self.blocks + 1;
                append.stage = Stage::End;
            },
            Stage::End => {},
        }
        Ok(())
    }

    /// What is to be done to write everything buffered to disk.
    pub fn flush(&self) -> (actions: Vec<FlushAction>)
        ensures
            actions@ == flush_actions(self@),
    {
        let mut actions: Vec<FlushAction> = Vec::new();
        if self.segment.is_some() {
            actions.push(FlushAction::FlushSegment);
            actions.push(FlushAction::SyncSegment);
        }
        actions.push(FlushAction::FlushIndex);
        actions.push(FlushAction::SyncIndex);
        assert(actions@ =~= flush_actions(self@));
        actions
    }
}

/// A flush has the data reach the disk before it writes anything to the index:
/// by the time of its `k`-th action, if that is one on the index, the open
/// segment is flushed and synced.
pub proof fn law_flush_puts_data_before_index(w: Writer, k: int)
    requires
        0 <= k < flush_actions(w).len(),
        w.segment is Some,
        flush_actions(w)[k] == FlushAction::FlushIndex || flush_actions(w)[k]
            == FlushAction::SyncIndex,
    ensures
        k >= 2,
        flush_actions(w)[0] == FlushAction::FlushSegment,
        flush_actions(w)[1] == FlushAction::SyncSegment,
{
}

/// An offset lies in the segment and at the position that make it up: whole
/// segments of 2 to the 31 bytes before it, and the rest.
pub proof fn law_offsets_count_through_segments(offset: int)
    requires
        0 <= offset,
    ensures
        0 <= segment_of(offset),
        0 <= position_of(offset) < 0x8000_0000,
        segment_of(offset) * 0x8000_0000 + position_of(offset) == offset,
{
}

/// A block is read where its entry points: the segment and the position make
/// up the entry's offset, and as many bytes are read as the entry says. An
/// empty witness is read nowhere.
pub proof fn law_extent_is_the_place(entry: Entry)
    ensures
        entry.len == 0 <==> extent_of(entry) is None,
        extent_of(entry) matches Some(extent) ==> {
            &&& extent.segment * 0x8000_0000 + extent.position == entry.offset
            &&& extent.position < 0x8000_0000
            &&& extent.len == entry.len
        },
{
}

/// Two blocks that are read at the same place have the same entry.
pub proof fn law_extents_differ(a: Entry, b: Entry)
    requires
        a.len > 0,
        b.len > 0,
        extent_of(a) == extent_of(b),
    ensures
        a == b,
{
}

/// Where a writer goes on: its next offset is made up of the wanted segment and
/// the position in it, and the padding is what is missing to the segment's end.
pub proof fn law_where_a_writer_goes_on(w: Writer)
    requires
        0 <= w.next_offset,
    ensures
        w.wanted() * 0x8000_0000 + w.position() == w.next_offset,
        0 <= w.position() < 0x8000_0000,
        w.position() + w.pad() == 0x8000_0000,
{
}

/// What opening a store for writing comes to. An index that is none is refused
/// for what is wrong with it. A store with `next_block` entries or more opens,
/// and keeps just the first `next_block` of them. A store without entries that
/// is opened at block 1 gets the empty entry of block 0. Every other store ends
/// too early, and is refused with what it has and what was asked for.
pub proof fn law_opening_result(
    index: Option<Seq<u8>>,
    next_block: u64,
    opening: Result<Opening, StoreError>,
)
    requires
        opens(index, next_block as int, opening),
    ensures
        index is Some && !is_index(index->0) ==> {
            &&& opening matches Err(StoreError::Index { what })
            &&& is_fault_of(index->0, what)
        },
        index is None || is_index(index->0) ==> {
            let found = if index is Some {
                index_entries(index->0)
            } else {
                Seq::<Entry>::empty()
            };
            if next_block <= found.len() {
                &&& opening matches Ok(opened)
                &&& opened@.index == index_bytes(found.take(next_block as int))
                &&& opened@.blocks == next_block
                &&& next_block == 0 ==> opened@.end == 0
                &&& next_block > 0 ==> opened@.end == found[next_block - 1].offset
                    + found[next_block - 1].len
                &&& opened@.stage == OpenStage::Index
            } else if found.len() == 0 && next_block == 1 {
                &&& opening matches Ok(opened)
                &&& opened@.index == index_bytes(seq![Entry { offset: 0, len: 0 }])
                &&& opened@.blocks == 1
                &&& opened@.end == 0
                &&& opened@.stage == OpenStage::Index
            } else {
                &&& opening matches Err(StoreError::Gap { recorded, resume })
                &&& recorded == found.len()
                &&& resume == next_block
            }
        },
{
    let found = if index is Some {
        index_entries(index->0)
    } else {
        Seq::<Entry>::empty()
    };
    if found.len() == 0 && next_block == 1 {
        assert(seq![Entry { offset: 0, len: 0 }].take(1) =~= seq![Entry { offset: 0, len: 0 }]);
    }
}

/// Only the next block is appended: any other is refused with what was expected
/// and what was given, and the writer stays as it is. The next one is appended
/// in the frame of its stream; where that cannot be made, which needs a stream
/// of at least 64 bytes, the writer stays as it is too.
pub proof fn law_append_result(
    before: Writer,
    after: Writer,
    number: u64,
    stream: Seq<u8>,
    started: Result<Append, StoreError>,
)
    requires
        appends(before, after, number as int, stream, started),
    ensures
        number != before.blocks ==> {
            &&& started matches Err(StoreError::OutOfOrder { expected, given })
            &&& expected == before.blocks
            &&& given == number
        },
        number == before.blocks && stream.len() < 64 ==> started is Ok,
        started is Err ==> after == before,
        started matches Ok(append) ==> {
            &&& append@.frame == frame_of(stream)
            &&& after.blocks == before.blocks
            &&& after.next_offset == before.next_offset
            &&& stream.len() > 0 ==> unframed(append@.frame) == Some(stream)
        },
        started is Err && number == before.blocks ==> {
            &&& started->Err_0 is Io
            &&& stream.len() >= 64
            &&& frames_as(stream, Err(started->Err_0->Io_source))
        },
{
}

/// A stream is stored in its frame, and an empty one in none.
pub proof fn law_frames_of_streams(stream: Seq<u8>)
    ensures
        frame_of(Seq::empty()) == Seq::<u8>::empty(),
        stream.len() > 0 ==> frame_of(stream) == stored_frame(stream),
        longest_frame(0) == 0,
        stream.len() > 0 ==> longest_frame(stream.len() as int) == stream.len() + 1,
{
}

/// When there is room for a frame: for one that is not the next block's there
/// always is. Else there is a block number left, and a frame that is not empty
/// is no longer than a segment and ends, behind a whole segment of padding, on a
/// 64-bit offset.
pub proof fn law_room(w: Writer, number: int, len: int)
    requires
        0 <= len,
    ensures
        number != w.blocks ==> has_room_for(w, number, len),
        number == w.blocks ==> (has_room_for(w, number, len) <==> {
            &&& w.blocks < 0xffff_ffff_ffff_ffff
            &&& len == 0 || (len <= 0x8000_0000 && w.next_offset + 0x8000_0000 + len
                <= 0xffff_ffff_ffff_ffff)
        }),
{
}

/// Where there is no room nothing is started, and where there is it is an
/// append like any other.
pub proof fn law_append_if_fits_result(
    before: Writer,
    after: Writer,
    number: u64,
    stream: Seq<u8>,
    started: Result<Option<Append>, StoreError>,
)
    requires
        appends_if_fits(before, after, number as int, stream, started),
    ensures
        number != before.blocks ==> {
            &&& started matches Err(StoreError::OutOfOrder { expected, given })
            &&& expected == before.blocks
            &&& given == number
        },
        started is Err || started->Ok_0 is None ==> after == before,
        number == before.blocks && stream.len() < 64 ==> started is Ok,
        started matches Ok(append) ==> {
            &&& append is Some <==> before.blocks < 0xffff_ffff_ffff_ffff && (frame_of(
                stream,
            ).len() == 0 || (frame_of(stream).len() <= 0x8000_0000 && before.next_offset
                + 0x8000_0000 + frame_of(stream).len() <= 0xffff_ffff_ffff_ffff))
            &&& append is Some ==> appends(before, after, number as int, stream, Ok(append->0))
        },
{
}

/// The entry of a frame has the offset and the length of the frame.
pub proof fn law_entry_of_a_frame(offset: u64, frame: Seq<u8>)
    requires
        frame.len() <= 0xffff_ffff,
    ensures
        entry_for(offset as int, frame).offset == offset,
        entry_for(offset as int, frame).len == frame.len(),
{
}

/// An action that failed ends the append, and leaves the writer as it is.
pub proof fn law_a_failed_action_ends_the_append(w: Writer, a: AppendState)
    ensures
        ({
            let (w2, a2, fault) = append_next(w, a, Event::Failed);
            &&& w2 == w
            &&& append_action(w2, a2) == Action::Finished
            &&& fault is None
        }),
{
}

/// What can come of an action is taken, whatever the action is: that it was
/// done, or the length where that was asked for, and that it failed.
pub proof fn law_outcomes_are_taken(w: Writer, a: AppendState, position: u64)
    ensures
        match append_action(w, a) {
            Action::Finished => true,
            Action::OpenSegment { .. } => append_expects(a, Event::Length { position })
                && append_expects(a, Event::Failed),
            _ => append_expects(a, Event::Done) && append_expects(a, Event::Failed),
        },
{
}

/// What can come of an action of an opening is taken, whatever the action is.
pub proof fn law_opening_outcomes_are_taken(o: OpeningState)
    ensures
        match open_action(o) {
            OpenAction::Ready => true,
            OpenAction::ProbeSegment { .. } => open_expects(o, OpenEvent::Present)
                && open_expects(o, OpenEvent::Absent),
            OpenAction::RemoveSegment { segment } => segment < 0xffff_ffff_ffff_ffff
                ==> open_expects(o, OpenEvent::Done),
            _ => open_expects(o, OpenEvent::Done),
        },
{
}

/// What a flush does, in order: with a segment open its data is written and
/// synced first, and then the index is.
pub proof fn law_flush_order(w: Writer)
    ensures
        w.segment is Some ==> flush_actions(w) == seq![
            FlushAction::FlushSegment,
            FlushAction::SyncSegment,
            FlushAction::FlushIndex,
            FlushAction::SyncIndex,
        ],
        w.segment is None ==> flush_actions(w) == seq![
            FlushAction::FlushIndex,
            FlushAction::SyncIndex,
        ],
{
}

/// What an index file holds is all of its bytes.
pub proof fn law_what_an_index_file_holds(bytes: &[u8])
    ensures
        index_content(Some(bytes)) == Some(bytes@),
        index_content(None) is None,
{
}

} // verus!
