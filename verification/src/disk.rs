//! What the files of a store hold, and what the writer's actions make of them.
//!
//! Everything here is mathematics: the laws say that what a writer appended is
//! what a reader finds, and that opening a store keeps what it does not drop.
use crate::digits::{le_value, zeros};
use crate::frame::{
    law_chosen_frame_holds_the_stream, raw_frame, unframed, zstd_decoded, zstd_encoded,
    COMPRESS_FROM, ZSTD_LEVEL,
};
use crate::index::{
    end_of, entry_bytes, index_entries, is_index, law_entries_do_not_overlap,
    law_entry_layout, law_index_grows_by_an_entry, law_index_round_trip,
    law_truncation_keeps_order, misplaced, ordered, Entry, IndexFault, ENTRY_LEN, HEADER_LEN, SEGMENT_SIZE,
};
use crate::record::{law_record_answers_the_same_questions, reached, recorded, Offer};
use crate::store::{
    append_action, append_has_room, append_next, append_start, entry_for, extent_of,
    flush_actions, frame_of, longest_frame, open_action, open_next, opening_of, position_of,
    recorded_entries, segment_of, Action, AppendState, Event, Extent, FlushAction, Goal,
    OpenAction, OpenEvent, OpenStage, OpeningState, Stage, Writer,
};
use crate::stream::{answers, questions_of, StreamError, Value};
use vstd::prelude::*;

verus! {

/// The files of a store: the index, if there is one, and the segments by
/// their number. What is buffered on its way to a file counts as written; what
/// of it is on disk is told apart in [`Pending`].
#[verifier::ext_equal]
pub struct Disk {
    pub index: Option<Seq<u8>>,
    pub segments: Map<int, Seq<u8>>,
}

impl Disk {
    /// What a segment holds; one that is not there holds nothing.
    pub open spec fn segment(self, n: int) -> Seq<u8> {
        if self.segments.contains_key(n) {
            self.segments[n]
        } else {
            Seq::empty()
        }
    }

    /// The entries of the index.
    pub open spec fn entries(self) -> Seq<Entry> {
        match self.index {
            Some(bytes) => index_entries(bytes),
            None => Seq::empty(),
        }
    }

    /// The bytes that an entry points at, if all of them are there.
    pub open spec fn frame(self, entry: Entry) -> Option<Seq<u8>> {
        let segment = self.segment(segment_of(entry.offset as int));
        let position = position_of(entry.offset as int);
        if position + entry.len <= segment.len() {
            Some(segment.subrange(position, position + entry.len))
        } else {
            None
        }
    }

    /// The witness of a block: what opening the store, locating the block,
    /// reading what lies there and decoding it gives.
    pub open spec fn witness(self, block: int) -> Option<Seq<u8>> {
        if !(0 <= block < self.entries().len()) {
            None
        } else if extent_of(self.entries()[block]) is None {
            Some(Seq::empty())
        } else {
            match self.frame(self.entries()[block]) {
                Some(frame) => unframed(frame),
                None => None,
            }
        }
    }

    /// What a look for a segment reports.
    pub open spec fn probed(self, n: int) -> OpenEvent {
        if self.segments.contains_key(n) {
            OpenEvent::Present
        } else {
            OpenEvent::Absent
        }
    }

    /// Whether the index is one, and every entry's data is there, in one
    /// segment.
    pub open spec fn sound(self) -> bool {
        &&& self.index is Some
        &&& is_index(self.index->0)
        &&& forall|n: int| 0 <= n < self.entries().len() ==> self.holds(#[trigger] self.entries()[n])
    }

    /// Whether an entry's data is there, in one segment.
    pub open spec fn holds(self, entry: Entry) -> bool {
        &&& self.frame(entry) is Some
        &&& position_of(entry.offset as int) + entry.len <= SEGMENT_SIZE
    }

    /// Whether a writer in state `w` can go on from these files: the index has
    /// its blocks, and the data ends where its next entry's data goes.
    pub open spec fn fits(self, w: Writer) -> bool {
        &&& self.index is Some
        &&& is_index(self.index->0)
        &&& self.entries().len() == w.blocks
        &&& 0 <= end_of(self.entries(), w.blocks) <= w.next_offset
        &&& self.segment(w.wanted()).len() == w.position()
        &&& forall|n: int| n > w.wanted() ==> (#[trigger] self.segment(n)).len() == 0
    }
}

/// Reading a block gives its witness: what [`crate::WitnessStore::read`] leaves
/// in `out` when it succeeds, on the bytes that the block's entry points at, is
/// the block's witness.
pub proof fn law_reading_gives_the_witness(disk: Disk, block: int, frame: Seq<u8>, out: Seq<u8>)
    requires
        0 <= block < disk.entries().len(),
        disk.frame(disk.entries()[block]) == Some(frame),
    ensures
        frame.len() == disk.entries()[block].len,
        frame.len() == 0 && out == Seq::<u8>::empty() ==> disk.witness(block) == Some(out),
        frame.len() > 0 && unframed(frame) == Some(out) ==> disk.witness(block) == Some(out),
{
}

/// The data that an append writes to the open segment next.
pub open spec fn data_ahead(w: Writer, a: AppendState) -> Seq<u8> {
    match a.goal {
        Goal::Pad => zeros(w.pad() as nat),
        Goal::Frame => a.frame,
    }
}

/// What an append's next action does to the files, and what it reports.
pub open spec fn perform(disk: Disk, w: Writer, a: AppendState) -> (Disk, Event) {
    match a.stage {
        Stage::Open => (
            Disk {
                segments: disk.segments.insert(w.wanted(), disk.segment(w.wanted())),
                ..disk
            },
            Event::Length { position: disk.segment(w.wanted()).len() as u64 },
        ),
        Stage::Write => {
            let open = w.segment->0;
            let data = data_ahead(w, a);
            (
                Disk { segments: disk.segments.insert(open, disk.segment(open) + data), ..disk },
                Event::Done,
            )
        },
        Stage::Index { entry } => (
            Disk { index: Some(disk.index->0 + entry_bytes(entry)), ..disk },
            Event::Done,
        ),
        Stage::Flush | Stage::End => (disk, Event::Done),
    }
}

/// How many actions an append has ahead of it, at most.
pub open spec fn actions_ahead(a: AppendState) -> int {
    let pad = if a.goal == Goal::Pad {
        3int
    } else {
        0
    };
    match a.stage {
        Stage::Flush => 4 + pad,
        Stage::Open => 3 + pad,
        Stage::Write => 2 + pad,
        Stage::Index { .. } => 1,
        Stage::End => 0,
    }
}

/// The files and the writer after all of an append's actions, none of which
/// fails, and what stopped them short.
pub open spec fn run_append(disk: Disk, w: Writer, a: AppendState) -> (
    Disk,
    Writer,
    Option<IndexFault>,
)
    decreases actions_ahead(a),
{
    if a.stage == Stage::End {
        (disk, w, None)
    } else {
        let (disk2, event) = perform(disk, w, a);
        let (w2, a2, fault) = append_next(w, a, event);
        if fault is Some {
            (disk2, w2, fault)
        } else {
            run_append(disk2, w2, a2)
        }
    }
}

/// The whole append of `frame`.
pub open spec fn append_run(disk: Disk, w: Writer, frame: Seq<u8>) -> (
    Disk,
    Writer,
    Option<IndexFault>,
) {
    let (w2, a) = append_start(w, frame);
    run_append(disk, w2, a)
}

/// Whether `frame` does not fit behind what the segment holds.
pub open spec fn needs_padding(w: Writer, frame: Seq<u8>) -> bool {
    frame.len() > 0 && w.position() + frame.len() > SEGMENT_SIZE
}

/// The witness that `frame` holds; without a frame it is empty.
pub open spec fn framed_witness(frame: Seq<u8>) -> Option<Seq<u8>> {
    if frame.len() == 0 {
        Some(Seq::empty())
    } else {
        unframed(frame)
    }
}

/// Where the data of `frame` goes.
pub open spec fn landing(w: Writer, frame: Seq<u8>) -> int {
    if needs_padding(w, frame) {
        w.next_offset + w.pad()
    } else {
        w.next_offset
    }
}

/// The files behind the append of `frame`: the segment, filled up with zeros
/// if the frame does not fit, the frame behind it or in the next segment, and
/// one entry more.
pub open spec fn appended_disk(disk: Disk, w: Writer, frame: Seq<u8>) -> Disk {
    let at = w.wanted();
    let segments = if frame.len() == 0 {
        disk.segments
    } else if needs_padding(w, frame) {
        disk.segments.insert(at, disk.segment(at) + zeros(w.pad() as nat)).insert(
            at + 1,
            disk.segment(at + 1) + frame,
        )
    } else {
        disk.segments.insert(at, disk.segment(at) + frame)
    };
    Disk {
        index: Some(disk.index->0 + entry_bytes(entry_for(landing(w, frame), frame))),
        segments,
    }
}

/// The writer behind the append of `frame`.
pub open spec fn appended_writer(w: Writer, frame: Seq<u8>) -> Writer {
    Writer {
        blocks: w.blocks + 1,
        next_offset: landing(w, frame) + frame.len(),
        segment: if frame.len() == 0 {
            w.segment
        } else {
            Some(segment_of(landing(w, frame)))
        },
    }
}

/// However the writer stands, its first actions open the wanted segment, if
/// that is as long as it has to be.
proof fn lemma_reach(disk: Disk, w: Writer, a: AppendState)
    requires
        disk.segment(w.wanted()).len() == w.position(),
        a.stage == w.reach_stage(),
    ensures
        ({
            let open = AppendState { stage: Stage::Write, ..a };
            let there = Writer { segment: Some(w.wanted()), ..w };
            let created = Disk {
                segments: disk.segments.insert(w.wanted(), disk.segment(w.wanted())),
                ..disk
            };
            ||| run_append(disk, w.reaching(), a) == run_append(created, there, open)
            ||| run_append(disk, w.reaching(), a) == run_append(disk, there, open)
        }),
{
    reveal_with_fuel(run_append, 3);
    assert(w.position() as u64 == w.position());
    if w.segment == Some(w.wanted()) {
        assert(w.reaching() == Writer { segment: Some(w.wanted()), ..w });
    }
}

/// Writing the frame to the open segment, and its entry to the index.
proof fn lemma_write_frame(disk: Disk, w: Writer, a: AppendState)
    requires
        a.goal == Goal::Frame,
        a.stage == Stage::Write,
        w.segment == Some(w.wanted()),
    ensures
        run_append(disk, w, a) == (
            Disk {
                index: Some(disk.index->0 + entry_bytes(entry_for(w.next_offset, a.frame))),
                segments: disk.segments.insert(
                    w.wanted(),
                    disk.segment(w.wanted()) + a.frame,
                ),
            },
            Writer { blocks: w.blocks + 1, next_offset: w.next_offset + a.frame.len(), ..w },
            None::<IndexFault>,
        ),
{
    reveal_with_fuel(run_append, 3);
}

/// An append leaves the files as [`appended_disk`] has them, if the segments
/// it writes to are as long as they have to be: the one at hand as long as
/// the offset says, and the one after it empty or not there.
pub proof fn law_append_run(disk: Disk, w: Writer, frame: Seq<u8>)
    requires
        0 <= w.next_offset,
        disk.segment(w.wanted()).len() == w.position(),
        needs_padding(w, frame) ==> disk.segment(w.wanted() + 1).len() == 0,
    ensures
        append_run(disk, w, frame) == (
            appended_disk(disk, w, frame),
            appended_writer(w, frame),
            None::<IndexFault>,
        ),
{
    let (w1, a) = append_start(w, frame);
    let at = w.wanted();
    if frame.len() == 0 {
        reveal_with_fuel(run_append, 3);
    } else {
        lemma_reach(disk, w, a);
        let created = Disk { segments: disk.segments.insert(at, disk.segment(at)), ..disk };
        let there = Writer { segment: Some(at), ..w };
        let open = AppendState { stage: Stage::Write, ..a };
        let base = if run_append(disk, w1, a) == run_append(created, there, open) {
            created
        } else {
            disk
        };
        assert(run_append(disk, w1, a) == run_append(base, there, open));
        if needs_padding(w, frame) {
            let filled = disk.segment(at) + zeros(w.pad() as nat);
            let padded_disk = Disk { segments: base.segments.insert(at, filled), ..disk };
            let padded = Writer { next_offset: w.next_offset + w.pad(), ..there };
            let a2 = AppendState { goal: Goal::Frame, stage: padded.reach_stage(), ..a };
            assert(base.segment(at) == disk.segment(at));
            assert(run_append(base, there, open) == run_append(
                padded_disk,
                padded.reaching(),
                a2,
            )) by {
                reveal_with_fuel(run_append, 2);
            }
            assert(padded.wanted() == at + 1 && padded.position() == 0);
            assert(padded_disk.segment(at + 1) == disk.segment(at + 1));
            lemma_reach(padded_disk, padded, a2);
            let next = Writer { segment: Some(at + 1), ..padded };
            let open2 = AppendState { stage: Stage::Write, ..a2 };
            let created2 = Disk {
                segments: padded_disk.segments.insert(at + 1, padded_disk.segment(at + 1)),
                ..padded_disk
            };
            let base2 = if run_append(padded_disk, padded.reaching(), a2) == run_append(
                created2,
                next,
                open2,
            ) {
                created2
            } else {
                padded_disk
            };
            assert(base2.segment(at + 1) == disk.segment(at + 1));
            lemma_write_frame(base2, next, open2);
            assert(base2.segments.insert(at + 1, disk.segment(at + 1) + frame)
                =~= appended_disk(disk, w, frame).segments);
        } else {
            assert(base.segment(at) == disk.segment(at));
            lemma_write_frame(base, there, open);
            assert(base.segments.insert(at, disk.segment(at) + frame)
                =~= appended_disk(disk, w, frame).segments);
        }
    }
}

/// An append to a segment that is longer or shorter than the index has it is
/// refused, and leaves the index and all data that is there as they are; a
/// missing segment that was to be opened is there then, and empty.
pub proof fn law_append_refuses_a_foreign_segment(disk: Disk, w: Writer, frame: Seq<u8>)
    requires
        0 <= w.next_offset,
        frame.len() > 0,
        w.segment != Some(w.wanted()),
        disk.segment(w.wanted()).len() != w.position(),
        disk.segment(w.wanted()).len() <= u64::MAX,
    ensures
        append_run(disk, w, frame) == (
            Disk {
                segments: disk.segments.insert(w.wanted(), disk.segment(w.wanted())),
                ..disk
            },
            Writer { segment: None, ..w },
            Some(
                IndexFault::SegmentLength {
                    segment: w.wanted() as u64,
                    position: disk.segment(w.wanted()).len() as u64,
                    expected: w.position() as u64,
                },
            ),
        ),
{
    reveal_with_fuel(run_append, 3);
}

/// More data in a segment, or in others, leaves the frame of an entry alone.
proof fn lemma_frame_kept(old: Disk, new: Disk, entry: Entry)
    requires
        old.holds(entry),
        old.segment(segment_of(entry.offset as int)).is_prefix_of(
            new.segment(segment_of(entry.offset as int)),
        ),
    ensures
        new.holds(entry),
        entry.len > 0 ==> new.frame(entry) == old.frame(entry),
{
    if entry.len > 0 {
        let n = segment_of(entry.offset as int);
        let at = position_of(entry.offset as int);
        assert(old.segment(n).subrange(at, at + entry.len) =~= new.segment(n).subrange(
            at,
            at + entry.len,
        ));
    }
}

/// What was appended is what is read back, and nothing that was there before
/// reads differently: after the append of a frame the store has one block
/// more, the witness of that block is what the frame holds (an empty one, if
/// there is no frame), those of all earlier blocks are what they were, no
/// entry straddles two segments, and the writer can go on from there.
///
/// The frame fits a segment, and the offsets that the append may come to are
/// 64-bit numbers.
pub proof fn law_appended_is_read_back(disk: Disk, w: Writer, frame: Seq<u8>)
    requires
        disk.fits(w),
        disk.sound(),
        frame.len() <= SEGMENT_SIZE,
        w.next_offset + SEGMENT_SIZE + frame.len() <= u64::MAX,
    ensures
        ({
            let (new, w2, fault) = append_run(disk, w, frame);
            &&& fault is None
            &&& w2 == appended_writer(w, frame)
            &&& new.entries() == disk.entries().push(entry_for(landing(w, frame), frame))
            &&& new.fits(w2)
            &&& new.sound()
            &&& new.witness(w.blocks) == framed_witness(frame)
            &&& forall|m: int| 0 <= m < w.blocks ==> #[trigger] new.witness(m) == disk.witness(m)
        }),
{
    law_append_run(disk, w, frame);
    let new = appended_disk(disk, w, frame);
    let entry = entry_for(landing(w, frame), frame);
    let entries = disk.entries();
    law_index_grows_by_an_entry(disk.index->0, entry);
    assert(new.entries() == entries.push(entry));
    assert(entry.len == frame.len());
    assert(entry.offset == landing(w, frame));
    let at = w.wanted();

    // The entries stay in order.
    assert forall|n: int| 0 <= n < new.entries().len() implies !#[trigger] misplaced(
        new.entries(),
        n,
    ) by {
        assert(end_of(new.entries(), n) == end_of(entries, n));
        if n < w.blocks {
            assert(!misplaced(entries, n));
        }
    }

    // Every segment starts with what it held.
    assert forall|n: int| disk.segment(n).is_prefix_of(#[trigger] new.segment(n)) by {
        if frame.len() > 0 && n == at {
            assert(disk.segment(at).is_prefix_of(new.segment(at)));
        }
    }
    assert forall|m: int| 0 <= m < w.blocks implies #[trigger] new.witness(m) == disk.witness(m)
        && new.holds(new.entries()[m]) by {
        assert(disk.holds(disk.entries()[m]));
        assert(new.entries()[m] == disk.entries()[m]);
        lemma_frame_kept(disk, new, entries[m]);
    }

    // The frame lies where the entry points.
    let n = segment_of(entry.offset as int);
    let p = position_of(entry.offset as int);
    if needs_padding(w, frame) {
        assert(n == at + 1 && p == 0);
        assert(new.segment(n) =~= frame);
    } else {
        assert(n == at && p == w.position());
    }
    assert(new.segment(n).len() == p + frame.len());
    assert(new.segment(n).subrange(p, p + frame.len()) =~= frame);
    assert(new.holds(entry));
    assert forall|m: int| 0 <= m < new.entries().len() implies new.holds(
        #[trigger] new.entries()[m],
    ) by {
        if m < w.blocks {
            assert(new.witness(m) == disk.witness(m));
        }
    }

    // The data ends where the writer goes on.
    let w2 = appended_writer(w, frame);
    assert(end_of(new.entries(), w2.blocks) == entry.spec_end());
    assert(w2.wanted() == n && w2.position() == p + frame.len() || w2.wanted() == n + 1
        && w2.position() == 0);
    assert forall|m: int| m > n implies (#[trigger] new.segment(m)).len() == 0 by {
        assert(disk.segment(m).len() == 0);
    }
}

/// The files, the writer and the append after the first `steps` actions of the
/// append.
pub open spec fn append_steps(disk: Disk, w: Writer, a: AppendState, steps: nat) -> (
    Disk,
    Writer,
    AppendState,
)
    decreases steps,
{
    if steps == 0 || a.stage == Stage::End {
        (disk, w, a)
    } else {
        let (disk2, event) = perform(disk, w, a);
        let (w2, a2, _) = append_next(w, a, event);
        append_steps(disk2, w2, a2, (steps - 1) as nat)
    }
}

/// The files after the first `steps` actions of the append of `frame` and, if
/// the next one is a write to a segment, the first `torn` bytes of that.
pub open spec fn interrupted(disk: Disk, w: Writer, frame: Seq<u8>, steps: nat, torn: nat) -> Disk {
    let (w1, a1) = append_start(w, frame);
    let (new, w2, a2) = append_steps(disk, w1, a1, steps);
    if a2.stage == Stage::Write && torn <= data_ahead(w2, a2).len() {
        let open = w2.segment->0;
        Disk {
            segments: new.segments.insert(
                open,
                new.segment(open) + data_ahead(w2, a2).take(torn as int),
            ),
            ..new
        }
    } else {
        new
    }
}

/// The actions of an append only add to segments, and leave the index alone
/// but for the last; all of them together are the run of the append.
proof fn lemma_append_steps(disk: Disk, w: Writer, a: AppendState, steps: nat)
    ensures
        ({
            let (new, w2, a2) = append_steps(disk, w, a, steps);
            &&& forall|n: int| disk.segment(n).is_prefix_of(#[trigger] new.segment(n))
            &&& a2.stage != Stage::End ==> new.index == disk.index
            &&& a2.stage == Stage::End ==> new == run_append(disk, w, a).0 && w2 == run_append(
                disk,
                w,
                a,
            ).1
            &&& steps >= actions_ahead(a) ==> a2.stage == Stage::End
        }),
    decreases steps,
{
    if steps > 0 && a.stage != Stage::End {
        let (disk2, event) = perform(disk, w, a);
        let (w2, a2, _) = append_next(w, a, event);
        lemma_append_steps(disk2, w2, a2, (steps - 1) as nat);
        let new = append_steps(disk, w, a, steps).0;
        assert forall|n: int| disk.segment(n).is_prefix_of(#[trigger] new.segment(n)) by {
            assert(disk2.segment(n).is_prefix_of(new.segment(n)));
        }
    }
}

/// An append that is cut short loses nothing: wherever it is interrupted, and
/// however much of a write to a segment was done by then, the witnesses of all
/// earlier blocks are what they were and every entry's data is there. The store
/// has the new block only if the append was complete.
///
/// (A write to the index that was done in part is not covered: such an index
/// is none.)
pub proof fn law_interrupted_append_loses_nothing(
    disk: Disk,
    w: Writer,
    frame: Seq<u8>,
    steps: nat,
    torn: nat,
)
    requires
        disk.fits(w),
        disk.sound(),
        frame.len() <= SEGMENT_SIZE,
        w.next_offset + SEGMENT_SIZE + frame.len() <= u64::MAX,
    ensures
        ({
            let new = interrupted(disk, w, frame, steps, torn);
            &&& new.sound()
            &&& new.entries() == disk.entries() || new == append_run(disk, w, frame).0
            &&& forall|m: int| 0 <= m < w.blocks ==> #[trigger] new.witness(m) == disk.witness(m)
        }),
{
    let (w1, a1) = append_start(w, frame);
    let (partial, w2, a2) = append_steps(disk, w1, a1, steps);
    let new = interrupted(disk, w, frame, steps, torn);
    lemma_append_steps(disk, w1, a1, steps);
    if a2.stage == Stage::End {
        law_appended_is_read_back(disk, w, frame);
    } else {
        assert forall|n: int| disk.segment(n).is_prefix_of(#[trigger] new.segment(n)) by {
            assert(disk.segment(n).is_prefix_of(partial.segment(n)));
        }
        assert forall|m: int| 0 <= m < disk.entries().len() implies new.holds(
            #[trigger] new.entries()[m],
        ) && new.witness(m) == disk.witness(m) by {
            assert(disk.holds(disk.entries()[m]));
            lemma_frame_kept(disk, new, disk.entries()[m]);
        }
    }
}

/// The files and the writer after the appends of `frames`, one after the
/// other.
pub open spec fn append_all(disk: Disk, w: Writer, frames: Seq<Seq<u8>>) -> (Disk, Writer)
    decreases frames.len(),
{
    if frames.len() == 0 {
        (disk, w)
    } else {
        let (disk2, w2) = append_all(disk, w, frames.drop_last());
        let (disk3, w3, _) = append_run(disk2, w2, frames.last());
        (disk3, w3)
    }
}

/// Whether every one of `frames` fits a segment, and the offsets that its append
/// may come to are 64-bit numbers.
pub open spec fn room_for_all(disk: Disk, w: Writer, frames: Seq<Seq<u8>>) -> bool {
    forall|i: int|
        0 <= i < frames.len() ==> (#[trigger] frames[i]).len() <= SEGMENT_SIZE && append_all(
            disk,
            w,
            frames.take(i),
        ).1.next_offset + SEGMENT_SIZE + frames[i].len() <= u64::MAX
}

/// What was appended is read back block by block: after any number of appends
/// the witness of every block appended is what its frame holds, and those of
/// the blocks before are what they were.
pub proof fn law_all_appended_are_read_back(disk: Disk, w: Writer, frames: Seq<Seq<u8>>)
    requires
        disk.fits(w),
        disk.sound(),
        room_for_all(disk, w, frames),
    ensures
        ({
            let (new, w2) = append_all(disk, w, frames);
            &&& new.fits(w2)
            &&& new.sound()
            &&& w2.blocks == w.blocks + frames.len()
            &&& forall|m: int| 0 <= m < w.blocks ==> #[trigger] new.witness(m) == disk.witness(m)
            &&& forall|i: int|
                0 <= i < frames.len() ==> #[trigger] new.witness(w.blocks + i)
                    == framed_witness(frames[i])
        }),
    decreases frames.len(),
{
    if frames.len() > 0 {
        let before = frames.drop_last();
        assert forall|i: int| 0 <= i < before.len() implies (#[trigger] before[i]).len()
            <= SEGMENT_SIZE && append_all(disk, w, before.take(i)).1.next_offset + SEGMENT_SIZE
            + before[i].len() <= u64::MAX by {
            assert(before[i] == frames[i]);
            assert(before.take(i) =~= frames.take(i));
        }
        assert(frames[frames.len() - 1].len() <= SEGMENT_SIZE);
        assert(frames.take(frames.len() - 1) =~= before);
        law_all_appended_are_read_back(disk, w, before);
        let (disk2, w2) = append_all(disk, w, before);
        let (new, w3) = append_all(disk, w, frames);
        law_appended_is_read_back(disk2, w2, frames.last());
        assert forall|i: int| 0 <= i < frames.len() implies #[trigger] new.witness(w.blocks + i)
            == framed_witness(frames[i]) by {
            if i < before.len() {
                assert(before[i] == frames[i]);
                assert(new.witness(w.blocks + i) == disk2.witness(w.blocks + i));
            }
        }
        assert forall|m: int| 0 <= m < w.blocks implies #[trigger] new.witness(m) == disk.witness(
            m,
        ) by {
            assert(disk2.witness(m) == disk.witness(m));
        }
    }
}

/// The frames that streams are stored as.
pub open spec fn frames_of(streams: Seq<Seq<u8>>) -> Seq<Seq<u8>> {
    streams.map_values(|stream: Seq<u8>| frame_of(stream))
}

proof fn lemma_frame_of_holds(stream: Seq<u8>)
    requires
        stream.len() < COMPRESS_FROM || zstd_decoded(zstd_encoded(stream, ZSTD_LEVEL)) == Some(
            stream,
        ),
    ensures
        framed_witness(frame_of(stream)) == Some(stream),
{
    law_chosen_frame_holds_the_stream(stream, zstd_encoded(stream, ZSTD_LEVEL));
    if stream.len() == 0 {
        assert(stream =~= Seq::empty());
    } else {
        assert(raw_frame(stream).skip(1) =~= stream);
    }
}

/// The streams of blocks are read back block by block: after the appends of
/// any number of them, empty ones among them, the witness of every block is its
/// stream. A stream that is compressed is one of which the compressed form
/// decodes to it, as it does wherever its append started.
#[verifier::spinoff_prover]
pub proof fn law_all_streams_are_read_back(disk: Disk, w: Writer, streams: Seq<Seq<u8>>)
    requires
        disk.fits(w),
        disk.sound(),
    ensures
        ({
            let (new, w2) = append_all(disk, w, frames_of(streams));
            room_for_all(disk, w, frames_of(streams)) ==> {
                &&& new.fits(w2)
                &&& new.sound()
                &&& w2.blocks == w.blocks + streams.len()
                &&& forall|m: int|
                    0 <= m < w.blocks ==> #[trigger] new.witness(m) == disk.witness(m)
                &&& forall|i: int|
                    0 <= i < streams.len() && (streams[i].len() < COMPRESS_FROM || zstd_decoded(
                        zstd_encoded(streams[i], ZSTD_LEVEL),
                    ) == Some(streams[i])) ==> #[trigger] new.witness(w.blocks + i) == Some(
                        streams[i],
                    )
            }
        }),
{
    let frames = frames_of(streams);
    if room_for_all(disk, w, frames) {
        law_all_appended_are_read_back(disk, w, frames);
        let new = append_all(disk, w, frames).0;
        assert forall|i: int|
            0 <= i < streams.len() && (streams[i].len() < COMPRESS_FROM || zstd_decoded(
                zstd_encoded(streams[i], ZSTD_LEVEL),
            ) == Some(streams[i])) implies #[trigger] new.witness(w.blocks + i) == Some(
            streams[i],
        ) by {
            assert(frames[i] == frame_of(streams[i]));
            lemma_frame_of_holds(streams[i]);
            assert(new.witness(w.blocks + i) == framed_witness(frames[i]));
        }
    }
}

/// A block that was recorded and appended replays from the store: its witness
/// is the record, and a re-executor that asks for the values that reached the
/// sink, in order, gets just those and uses it up.
///
/// This holds of every frame that decodes to the record, as that of every
/// append that starts does.
pub proof fn law_recorded_block_replays_from_the_store(disk: Disk, w: Writer, offers: Seq<Offer>)
    requires
        disk.fits(w),
        disk.sound(),
        recorded(offers).stream.len() < SEGMENT_SIZE,
        w.next_offset + SEGMENT_SIZE + longest_frame(recorded(offers).stream.len() as int)
            <= u64::MAX,
        forall|i: int| 0 <= i < offers.len() ==> (#[trigger] offers[i]).value.fits(),
    ensures
        ({
            let stream = recorded(offers).stream;
            let frame = frame_of(stream);
            let (new, _, fault) = append_run(disk, w, frame);
            (stream.len() > 0 ==> unframed(frame) == Some(stream)) ==> {
                &&& fault is None
                &&& new.witness(w.blocks) == Some(stream)
                &&& answers(questions_of(reached(offers)), stream) == Ok::<
                    (Seq<Value>, int),
                    StreamError,
                >((reached(offers), stream.len() as int))
            }
        }),
{
    let stream = recorded(offers).stream;
    let frame = frame_of(stream);
    law_record_answers_the_same_questions(offers);
    law_chosen_frame_holds_the_stream(stream, zstd_encoded(stream, ZSTD_LEVEL));
    law_appended_is_read_back(disk, w, frame);
    if stream.len() == 0 {
        assert(stream =~= Seq::empty());
    }
}

/// What setting the length of a file makes of its contents.
pub open spec fn resized(data: Seq<u8>, len: int) -> Seq<u8> {
    if len <= data.len() {
        data.take(len)
    } else {
        data + zeros((len - data.len()) as nat)
    }
}

/// What an opening's next action does to the files, and what it reports.
pub open spec fn perform_open(disk: Disk, o: OpeningState) -> (Disk, OpenEvent) {
    let last = segment_of(o.end);
    match o.stage {
        OpenStage::Index => (Disk { index: Some(o.index), ..disk }, OpenEvent::Done),
        OpenStage::Probe { segment } => (disk, disk.probed(segment as int)),
        OpenStage::Remove { segment } => (
            Disk { segments: disk.segments.remove(segment as int), ..disk },
            OpenEvent::Done,
        ),
        OpenStage::ProbeLast => (disk, disk.probed(last)),
        OpenStage::Cut => (
            Disk {
                segments: disk.segments.insert(
                    last,
                    resized(disk.segment(last), position_of(o.end)),
                ),
                ..disk
            },
            OpenEvent::Done,
        ),
        OpenStage::Open => (disk, OpenEvent::Done),
    }
}

/// The files after the first `steps` actions of an opening, none of which
/// fails, and how far it has come.
pub open spec fn open_run(disk: Disk, o: OpeningState, steps: nat) -> (
    Disk,
    Result<OpenStage, IndexFault>,
)
    decreases steps,
{
    if steps == 0 || o.stage == OpenStage::Open {
        (disk, Ok(o.stage))
    } else {
        let (disk2, event) = perform_open(disk, o);
        match open_next(o, event) {
            Ok(stage) => open_run(disk2, OpeningState { stage, ..o }, (steps - 1) as nat),
            Err(fault) => (disk2, Err(fault)),
        }
    }
}

/// The segments without those from `from` up to, but not including, `to`.
pub open spec fn without(segments: Map<int, Seq<u8>>, from: int, to: int) -> Map<int, Seq<u8>> {
    Map::new(
        |n: int| segments.contains_key(n) && !(from <= n < to),
        |n: int| segments[n],
    )
}

/// Whether `gap` is the first segment behind number `last` that is not there.
pub open spec fn first_gap(disk: Disk, last: int, gap: int) -> bool {
    &&& last < gap
    &&& !disk.segments.contains_key(gap)
    &&& forall|n: int| last < n < gap ==> #[trigger] disk.segments.contains_key(n)
}

/// The files that an opening leaves: the index it writes, and none of the
/// segments behind the one in which the data ends, which itself is cut there.
pub open spec fn opened_disk(disk: Disk, o: OpeningState, gap: int) -> Disk {
    let last = segment_of(o.end);
    let segments = without(disk.segments, last + 1, gap);
    Disk {
        index: Some(o.index),
        segments: if segments.contains_key(last) {
            segments.insert(last, resized(segments[last], position_of(o.end)))
        } else {
            segments
        },
    }
}

/// The actions that remove the segments from `from` on, and those after them.
proof fn lemma_remove_run(disk: Disk, o: OpeningState, from: int, gap: int, steps: nat)
    requires
        0 <= o.end,
        segment_of(o.end) < from <= gap <= u64::MAX,
        o.stage == (OpenStage::Probe { segment: from as u64 }),
        !disk.segments.contains_key(gap),
        forall|n: int| from <= n < gap ==> #[trigger] disk.segments.contains_key(n),
        steps >= 2 * (gap - from) + 3,
    ensures
        ({
            let last = segment_of(o.end);
            let segments = without(disk.segments, from, gap);
            open_run(disk, o, steps) == if segments.contains_key(last) {
                (
                    Disk {
                        segments: segments.insert(
                            last,
                            resized(segments[last], position_of(o.end)),
                        ),
                        ..disk
                    },
                    Ok::<OpenStage, IndexFault>(OpenStage::Open),
                )
            } else if position_of(o.end) != 0 {
                (
                    Disk { segments, ..disk },
                    Err(IndexFault::MissingSegment { segment: last as u64 }),
                )
            } else {
                (Disk { segments, ..disk }, Ok(OpenStage::Open))
            }
        }),
    decreases gap - from,
{
    let last = segment_of(o.end);
    let segments = without(disk.segments, from, gap);
    assert((from as u64) as int == from);
    if from == gap {
        assert(segments =~= disk.segments);
        reveal_with_fuel(open_run, 4);
    } else {
        assert(disk.segments.contains_key(from));
        let removed = Disk { segments: disk.segments.remove(from), ..disk };
        let o2 = OpeningState { stage: OpenStage::Probe { segment: (from + 1) as u64 }, ..o };
        assert(open_run(disk, o, steps) == open_run(removed, o2, (steps - 2) as nat)) by {
            reveal_with_fuel(open_run, 3);
        }
        lemma_remove_run(removed, o2, from + 1, gap, (steps - 2) as nat);
        assert(without(removed.segments, from + 1, gap) =~= segments);
    }
}

/// An opening ends, within two actions for each segment it removes and four
/// more, and leaves the files as [`opened_disk`] has them; it ends on a missing
/// segment just if the data ends inside of a segment that is not there, and
/// then too the segments behind are gone and the index is the new one.
pub proof fn law_opening_run(disk: Disk, o: OpeningState, gap: int, steps: nat)
    requires
        0 <= o.end <= u64::MAX,
        o.stage == OpenStage::Index,
        first_gap(disk, segment_of(o.end), gap),
        gap <= u64::MAX,
        steps >= 2 * (gap - segment_of(o.end)) + 2,
    ensures
        open_run(disk, o, steps) == (
            opened_disk(disk, o, gap),
            if !disk.segments.contains_key(segment_of(o.end)) && position_of(o.end) != 0 {
                Err(IndexFault::MissingSegment { segment: segment_of(o.end) as u64 })
            } else {
                Ok(OpenStage::Open)
            },
        ),
{
    let last = segment_of(o.end);
    let written = Disk { index: Some(o.index), ..disk };
    let o2 = OpeningState { stage: OpenStage::Probe { segment: (last + 1) as u64 }, ..o };
    assert(open_run(disk, o, steps) == open_run(written, o2, (steps - 1) as nat)) by {
        reveal_with_fuel(open_run, 2);
    }
    lemma_remove_run(written, o2, last + 1, gap, (steps - 1) as nat);
}

/// Opening a store at `next_block` keeps the witnesses of the blocks before it
/// and drops all others: the store has `next_block` entries then, those it had
/// or block 0's empty one, and every entry's data is there. If no segment lies
/// behind the first gap in their numbers, nothing is left of the data past the
/// entries, and the writer can go on from there.
pub proof fn law_opening_keeps_the_blocks_before(disk: Disk, next_block: int, gap: int, steps: nat)
    requires
        disk.index is Some ==> disk.sound(),
        0 <= next_block <= recorded_entries(disk.index, next_block).len(),
        ({
            let end = end_of(recorded_entries(disk.index, next_block), next_block);
            &&& first_gap(disk, segment_of(end), gap)
            &&& gap <= u64::MAX
            &&& steps >= 2 * (gap - segment_of(end)) + 2
        }),
    ensures
        ({
            let o = opening_of(recorded_entries(disk.index, next_block), next_block);
            let (new, stage) = open_run(disk, o, steps);
            &&& stage == Ok::<OpenStage, IndexFault>(OpenStage::Open)
            &&& new.entries() == recorded_entries(disk.index, next_block).take(next_block)
            &&& new.sound()
            &&& (forall|n: int| n >= gap ==> !#[trigger] disk.segments.contains_key(n))
                ==> new.fits(Writer { blocks: next_block, next_offset: o.end, segment: None })
            &&& forall|m: int|
                0 <= m < next_block && m < disk.entries().len() ==> #[trigger] new.witness(m)
                    == disk.witness(m)
            &&& disk.entries().len() == 0 && next_block == 1 ==> new.witness(0) == Some(
                Seq::<u8>::empty(),
            )
        }),
{
    let entries = recorded_entries(disk.index, next_block);
    let kept = entries.take(next_block);
    let o = opening_of(entries, next_block);
    let last = segment_of(o.end);
    let new = opened_disk(disk, o, gap);
    assert(ordered(entries));
    assert forall|m: int| 0 <= m < entries.len() implies disk.holds(#[trigger] entries[m]) by {
        if disk.entries().len() > 0 {
            assert(disk.holds(disk.entries()[m]));
        }
    }
    if next_block > 0 {
        assert(!misplaced(entries, next_block - 1));
    }
    law_truncation_keeps_order(entries, next_block);
    law_index_round_trip(kept);
    assert(new.entries() =~= kept);
    assert(end_of(kept, next_block) == o.end);

    // The segment in which the data ends is there, if it has to be.
    if position_of(o.end) != 0 {
        let e = entries[next_block - 1];
        assert(disk.holds(e));
        assert(disk.segments.contains_key(last)) by {
            assert(segment_of(e.offset as int) == last);
        }
    }
    law_opening_run(disk, o, gap, steps);

    // What is kept lies before the end of the data.
    assert forall|m: int| 0 <= m < next_block implies {
        &&& new.holds(kept[m])
        &&& #[trigger] new.frame(kept[m]) == disk.frame(kept[m])
    } by {
        let e = entries[m];
        assert(kept[m] == e);
        assert(disk.holds(e));
        if m < next_block - 1 {
            law_entries_do_not_overlap(entries, m, next_block - 1);
        }
        assert(e.spec_end() <= o.end);
        let n = segment_of(e.offset as int);
        let p = position_of(e.offset as int);
        assert(n <= last);
        if n == last && disk.segments.contains_key(last) {
            assert(p + e.len <= position_of(o.end));
            assert(new.segment(n).len() == position_of(o.end));
            assert(new.segment(n).subrange(p, p + e.len) =~= disk.segment(n).subrange(
                p,
                p + e.len,
            ));
        }
    }
    assert forall|m: int| 0 <= m < new.entries().len() implies new.holds(
        #[trigger] new.entries()[m],
    ) by {
        assert(new.frame(kept[m]) == disk.frame(kept[m]));
    }
    assert forall|m: int|
        0 <= m < next_block && m < disk.entries().len() implies #[trigger] new.witness(m)
        == disk.witness(m) by {
        assert(new.frame(kept[m]) == disk.frame(kept[m]));
        assert(kept[m] == disk.entries()[m]);
    }
    if forall|n: int| n >= gap ==> !#[trigger] disk.segments.contains_key(n) {
        assert forall|n: int| n > last implies (#[trigger] new.segment(n)).len() == 0 by {
            if n < gap {
                assert(!new.segments.contains_key(n));
            } else {
                assert(!disk.segments.contains_key(n));
            }
        }
    }
}

/// An append that was cut short can be redone: opening the store at its block
/// again keeps the witnesses of all earlier blocks and drops what the append
/// left. If no segment lies behind the first gap in their numbers, the writer
/// can go on from there.
pub proof fn law_interrupted_append_can_be_redone(
    disk: Disk,
    w: Writer,
    frame: Seq<u8>,
    steps: nat,
    torn: nat,
    gap: int,
    open_steps: nat,
)
    requires
        disk.fits(w),
        disk.sound(),
        frame.len() <= SEGMENT_SIZE,
        w.next_offset + SEGMENT_SIZE + frame.len() <= u64::MAX,
        ({
            let left = interrupted(disk, w, frame, steps, torn);
            let end = end_of(disk.entries(), w.blocks);
            &&& first_gap(left, segment_of(end), gap)
            &&& gap <= u64::MAX
            &&& open_steps >= 2 * (gap - segment_of(end)) + 2
        }),
    ensures
        ({
            let left = interrupted(disk, w, frame, steps, torn);
            let o = opening_of(recorded_entries(left.index, w.blocks), w.blocks);
            let (new, stage) = open_run(left, o, open_steps);
            &&& stage == Ok::<OpenStage, IndexFault>(OpenStage::Open)
            &&& new.sound()
            &&& (forall|n: int| n >= gap ==> !#[trigger] left.segments.contains_key(n))
                ==> new.fits(Writer { blocks: w.blocks, next_offset: o.end, segment: None })
            &&& forall|m: int| 0 <= m < w.blocks ==> #[trigger] new.witness(m) == disk.witness(m)
        }),
{
    law_interrupted_append_loses_nothing(disk, w, frame, steps, torn);
    law_appended_is_read_back(disk, w, frame);
    let left = interrupted(disk, w, frame, steps, torn);
    let entries = recorded_entries(left.index, w.blocks);
    assert(entries == left.entries());
    assert(end_of(entries, w.blocks) == end_of(disk.entries(), w.blocks));
    law_opening_keeps_the_blocks_before(left, w.blocks, gap, open_steps);
    let o = opening_of(entries, w.blocks);
    let new = open_run(left, o, open_steps).0;
    assert forall|m: int| 0 <= m < w.blocks implies #[trigger] new.witness(m) == disk.witness(
        m,
    ) by {
        assert(new.witness(m) == left.witness(m));
        assert(left.witness(m) == disk.witness(m));
    }
}

/// A store of which not everything is on disk yet.
#[verifier::ext_equal]
pub struct Pending {
    /// What is on disk.
    pub disk: Disk,
    /// The segment that is open for appending.
    pub open: Option<int>,
    /// What was appended to the open segment and is not on disk.
    pub segment: Seq<u8>,
    /// The entries that wait for the index file.
    pub index: Seq<u8>,
}

impl Pending {
    /// The files once everything is on disk.
    pub open spec fn whole(self) -> Disk {
        self.segment_reaches(self.segment.len() as int).index_reaches(
            self.index.len() as int,
        ).disk
    }

    /// The store after `n` more bytes of the open segment are on disk.
    pub open spec fn segment_reaches(self, n: int) -> Pending {
        match self.open {
            Some(open) => Pending {
                disk: Disk {
                    segments: self.disk.segments.insert(
                        open,
                        self.disk.segment(open) + self.segment.take(n),
                    ),
                    ..self.disk
                },
                segment: self.segment.skip(n),
                ..self
            },
            None => self,
        }
    }

    /// The store after `n` more bytes of the index are on disk.
    pub open spec fn index_reaches(self, n: int) -> Pending {
        Pending {
            disk: Disk { index: Some(self.disk.index->0 + self.index.take(n)), ..self.disk },
            index: self.index.skip(n),
            ..self
        }
    }

    /// As many of the pending bytes of the segment as `amount` says, or all.
    pub open spec fn of_segment(self, amount: int) -> int {
        if 0 <= amount <= self.segment.len() {
            amount
        } else {
            self.segment.len() as int
        }
    }

    /// As many of the pending bytes of the index as `amount` says, or all.
    pub open spec fn of_index(self, amount: int) -> int {
        if 0 <= amount <= self.index.len() {
            amount
        } else {
            self.index.len() as int
        }
    }

    /// The store after an action of a flush. A file that is flushed may reach
    /// the disk up to any byte, here `amount`; one that is synced is there.
    pub open spec fn after_flush_action(self, action: FlushAction, amount: int) -> Pending {
        match action {
            FlushAction::FlushSegment => self.segment_reaches(self.of_segment(amount)),
            FlushAction::SyncSegment => self.segment_reaches(self.segment.len() as int),
            FlushAction::FlushIndex => self.index_reaches(self.of_index(amount)),
            FlushAction::SyncIndex => self.index_reaches(self.index.len() as int),
        }
    }

    /// The store after an append's next action, and what that reports. What is
    /// written to a segment may reach the disk up to any byte, here `amount`;
    /// an entry waits for a flush.
    pub open spec fn after_append_action(self, w: Writer, a: AppendState, amount: int) -> (
        Pending,
        Event,
    ) {
        match a.stage {
            Stage::Flush => (
                Pending {
                    open: None,
                    ..self.segment_reaches(self.segment.len() as int)
                },
                Event::Done,
            ),
            Stage::Open => (
                Pending {
                    disk: Disk {
                        segments: self.disk.segments.insert(
                            w.wanted(),
                            self.disk.segment(w.wanted()),
                        ),
                        ..self.disk
                    },
                    open: Some(w.wanted()),
                    ..self
                },
                Event::Length { position: self.disk.segment(w.wanted()).len() as u64 },
            ),
            Stage::Write => {
                let written = Pending { segment: self.segment + data_ahead(w, a), ..self };
                (written.segment_reaches(written.of_segment(amount)), Event::Done)
            },
            Stage::Index { entry } => (
                Pending { index: self.index + entry_bytes(entry), ..self },
                Event::Done,
            ),
            Stage::End => (self, Event::Done),
        }
    }

    /// Whether a writer in state `w` can go on from this store: it can go on
    /// from the files once everything is on disk, every entry's data is there
    /// then, and what is pending belongs to the segment that it has open.
    pub open spec fn fits(self, w: Writer) -> bool {
        &&& self.disk.index is Some
        &&& self.disk.index->0.len() >= HEADER_LEN
        &&& self.whole().fits(w)
        &&& self.whole().sound()
        &&& self.belongs(w)
    }

    /// Whether what is pending belongs to the segment that `w` has open.
    pub open spec fn belongs(self, w: Writer) -> bool {
        &&& self.open is Some ==> self.disk.segments.contains_key(self.open->0)
        &&& if w.segment is Some {
            self.open == w.segment
        } else {
            self.segment.len() == 0
        }
    }
}

/// The store after the first `k` actions of a flush.
pub open spec fn flushed(p: Pending, w: Writer, amounts: Seq<int>, k: nat) -> Pending
    decreases k,
{
    if k == 0 {
        p
    } else {
        flushed(p, w, amounts, (k - 1) as nat).after_flush_action(
            flush_actions(w)[k - 1],
            amounts[k - 1],
        )
    }
}

/// The store, the writer and the append after the first `steps` actions of the
/// append.
pub open spec fn pending_steps(
    p: Pending,
    w: Writer,
    a: AppendState,
    amounts: Seq<int>,
    steps: nat,
) -> (Pending, Writer, AppendState)
    decreases steps,
{
    if steps == 0 || a.stage == Stage::End {
        (p, w, a)
    } else {
        let (p2, event) = p.after_append_action(w, a, amounts[0]);
        let (w2, a2, _) = append_next(w, a, event);
        pending_steps(p2, w2, a2, amounts.skip(1), (steps - 1) as nat)
    }
}

/// Whether every entry that the index has points at data that is there.
pub open spec fn points_at_data(disk: Disk) -> bool {
    forall|n: int| 0 <= n < disk.entries().len() ==> disk.holds(#[trigger] disk.entries()[n])
}

/// What holds of a store all through a flush that has come to its `k`-th
/// action.
spec fn flushing(p: Pending, w: Writer, start: Pending, k: nat) -> bool {
    &&& p.whole() == start.whole()
    &&& p.open == start.open
    &&& p.open is Some ==> p.disk.segments.contains_key(p.open->0)
    &&& p.disk.index is Some
    &&& p.disk.index->0.len() >= HEADER_LEN
    &&& points_at_data(p.disk)
    &&& w.segment is None || k >= 2 ==> p.segment.len() == 0
    &&& k == flush_actions(w).len() ==> p.index.len() == 0
}

/// The entries of an index are the first ones of every longer index.
proof fn lemma_entries_of_prefix(short: Seq<u8>, long: Seq<u8>, n: int)
    requires
        short.is_prefix_of(long),
        short.len() >= HEADER_LEN,
        0 <= n < index_entries(short).len(),
    ensures
        n < index_entries(long).len(),
        index_entries(short)[n] == index_entries(long)[n],
{
    let at = HEADER_LEN + ENTRY_LEN * n;
    assert(short.subrange(at, at + ENTRY_LEN) =~= long.subrange(at, at + ENTRY_LEN));
}

/// More data in segments leaves entries pointing at data.
proof fn lemma_still_points(old: Disk, new: Disk)
    requires
        points_at_data(old),
        new.index == old.index,
        forall|n: int| old.segment(n).is_prefix_of(#[trigger] new.segment(n)),
    ensures
        points_at_data(new),
{
    assert forall|m: int| 0 <= m < new.entries().len() implies new.holds(
        #[trigger] new.entries()[m],
    ) by {
        let entry = old.entries()[m];
        assert(old.holds(entry));
        assert(old.segment(segment_of(entry.offset as int)).is_prefix_of(
            new.segment(segment_of(entry.offset as int)),
        ));
        lemma_frame_kept(old, new, entry);
    }
}

proof fn lemma_segment_reaches(p: Pending, n: int)
    requires
        0 <= n <= p.segment.len(),
    ensures
        p.segment_reaches(n).whole() == p.whole(),
        points_at_data(p.disk) ==> points_at_data(p.segment_reaches(n).disk),
{
    let q = p.segment_reaches(n);
    if p.open is Some {
        let open = p.open->0;
        assert(p.disk.segment(open) + p.segment.take(n) + q.segment.take(q.segment.len() as int)
            =~= p.disk.segment(open) + p.segment.take(p.segment.len() as int));
        assert(q.whole().segments =~= p.whole().segments);
    }
    if points_at_data(p.disk) {
        lemma_still_points(p.disk, q.disk);
    }
}

proof fn lemma_index_reaches(p: Pending, n: int)
    requires
        p.disk.index is Some,
        p.disk.index->0.len() >= HEADER_LEN,
        p.segment.len() == 0,
        points_at_data(p.whole()),
        0 <= n <= p.index.len(),
    ensures
        p.index_reaches(n).whole() == p.whole(),
        points_at_data(p.index_reaches(n).disk),
{
    let q = p.index_reaches(n);
    let whole = p.whole();
    assert(q.disk.index->0 + q.index.take(q.index.len() as int) =~= p.disk.index->0 + p.index.take(
        p.index.len() as int,
    ));
    assert(q.whole() =~= whole);
    assert forall|m: int| q.disk.segment(m) == #[trigger] whole.segment(m) by {
        if p.open == Some(m) {
            assert(p.disk.segment(m) + p.segment.take(0) =~= p.disk.segment(m));
        }
    }
    assert(q.disk.index->0.is_prefix_of(whole.index->0));
    assert forall|m: int| 0 <= m < q.disk.entries().len() implies q.disk.holds(
        #[trigger] q.disk.entries()[m],
    ) by {
        lemma_entries_of_prefix(q.disk.index->0, whole.index->0, m);
        let entry = whole.entries()[m];
        assert(whole.holds(entry));
        assert(q.disk.segment(segment_of(entry.offset as int)) == whole.segment(
            segment_of(entry.offset as int),
        ));
    }
}

/// A flush writes no entry that points at bytes that did not make it: if the
/// entries on disk point at data on disk when it starts, they do after each of
/// its actions, however much of a file that was flushed and not yet synced got
/// there; and once it is done, nothing is pending.
pub proof fn law_flush_leaves_no_dangling_entry(
    p: Pending,
    w: Writer,
    amounts: Seq<int>,
    k: nat,
)
    requires
        p.fits(w),
        points_at_data(p.disk),
        k <= flush_actions(w).len(),
    ensures
        points_at_data(flushed(p, w, amounts, k).disk),
        flushed(p, w, amounts, k).fits(w),
        flushed(p, w, amounts, k).whole() == p.whole(),
        k == flush_actions(w).len() ==> {
            &&& flushed(p, w, amounts, k).segment.len() == 0
            &&& flushed(p, w, amounts, k).index.len() == 0
        },
{
    lemma_flushing(p, w, amounts, k);
}

proof fn lemma_flushing(p: Pending, w: Writer, amounts: Seq<int>, k: nat)
    requires
        p.fits(w),
        points_at_data(p.disk),
        k <= flush_actions(w).len(),
    ensures
        flushing(flushed(p, w, amounts, k), w, p, k),
    decreases k,
{
    if k > 0 {
        let before = flushed(p, w, amounts, (k - 1) as nat);
        lemma_flushing(p, w, amounts, (k - 1) as nat);
        let amount = amounts[k - 1];
        match flush_actions(w)[k - 1] {
            FlushAction::FlushSegment => {
                lemma_segment_reaches(before, before.of_segment(amount));
            },
            FlushAction::SyncSegment => {
                lemma_segment_reaches(before, before.segment.len() as int);
            },
            FlushAction::FlushIndex => {
                lemma_index_reaches(before, before.of_index(amount));
            },
            FlushAction::SyncIndex => {
                lemma_index_reaches(before, before.index.len() as int);
            },
        }
    }
}

/// What holds of a store and a writer all through an append.
spec fn appending(p: Pending, w: Writer, a: AppendState) -> bool {
    &&& p.disk.index is Some
    &&& p.open is Some ==> p.disk.segments.contains_key(p.open->0)
    &&& match a.stage {
        Stage::Flush => p.open is Some && w.segment is None,
        Stage::Open => w.segment is None && p.belongs(w),
        Stage::Write => w.segment is Some && p.belongs(w),
        _ => p.belongs(w),
    }
}

/// An action of an append does to the store, once everything is on disk, what
/// it does to files that are written at once, and puts no entry on disk.
proof fn lemma_pending_action(p: Pending, w: Writer, a: AppendState, amount: int)
    requires
        appending(p, w, a),
        a.stage != Stage::End,
    ensures
        ({
            let (q, event) = p.after_append_action(w, a, amount);
            let (w2, a2, _) = append_next(w, a, event);
            &&& (q.whole(), event) == perform(p.whole(), w, a)
            &&& q.disk.index == p.disk.index
            &&& points_at_data(p.disk) ==> points_at_data(q.disk)
            &&& appending(q, w2, a2)
        }),
{
    let (q, event) = p.after_append_action(w, a, amount);
    let (disk, _) = perform(p.whole(), w, a);
    match a.stage {
        Stage::Flush => {
            lemma_segment_reaches(p, p.segment.len() as int);
            assert(q.whole() =~= disk);
        },
        Stage::Open => {
            let at = w.wanted();
            assert(p.whole().segments =~= p.disk.segments) by {
                if p.open is Some {
                    let open = p.open->0;
                    assert(p.disk.segment(open) + p.segment.take(0) =~= p.disk.segment(open));
                }
            }
            assert(p.whole().segment(at) == p.disk.segment(at));
            assert(q.disk.segment(at) + q.segment.take(0) =~= p.disk.segment(at));
            assert(q.whole() =~= disk);
            if points_at_data(p.disk) {
                lemma_still_points(p.disk, q.disk);
            }
        },
        Stage::Write => {
            let open = p.open->0;
            let data = data_ahead(w, a);
            let written = Pending { segment: p.segment + data, ..p };
            lemma_segment_reaches(written, written.of_segment(amount));
            assert(p.disk.segment(open) + written.segment.take(written.segment.len() as int)
                =~= p.disk.segment(open) + p.segment.take(p.segment.len() as int) + data);
            assert(written.whole() =~= disk);
        },
        Stage::Index { entry } => {
            let bytes = entry_bytes(entry);
            assert(p.disk.index->0 + (p.index + bytes).take((p.index + bytes).len() as int)
                =~= p.disk.index->0 + p.index.take(p.index.len() as int) + bytes);
            assert(q.whole() =~= disk);
        },
        Stage::End => {},
    }
}

proof fn lemma_pending_steps(
    p: Pending,
    w: Writer,
    a: AppendState,
    amounts: Seq<int>,
    steps: nat,
)
    requires
        appending(p, w, a),
    ensures
        ({
            let (q, w2, a2) = pending_steps(p, w, a, amounts, steps);
            &&& (q.whole(), w2, a2) == append_steps(p.whole(), w, a, steps)
            &&& q.disk.index == p.disk.index
            &&& points_at_data(p.disk) ==> points_at_data(q.disk)
            &&& appending(q, w2, a2)
        }),
    decreases steps,
{
    if steps > 0 && a.stage != Stage::End {
        lemma_pending_action(p, w, a, amounts[0]);
        let (p2, event) = p.after_append_action(w, a, amounts[0]);
        let (w2, a2, _) = append_next(w, a, event);
        lemma_pending_steps(p2, w2, a2, amounts.skip(1), (steps - 1) as nat);
    }
}

/// What a writer is put to.
pub enum Task {
    /// A frame is appended, and so much of every write to a segment reaches the
    /// disk at once.
    Append { frame: Seq<u8>, amounts: Seq<int> },
    /// Everything is flushed.
    Flush { amounts: Seq<int> },
}

/// The store and the writer after a task is done. (An append takes seven
/// actions at most.)
pub open spec fn after_task(p: Pending, w: Writer, task: Task) -> (Pending, Writer) {
    match task {
        Task::Append { frame, amounts } => {
            let (w1, a) = append_start(w, frame);
            let (q, w2, _) = pending_steps(p, w1, a, amounts, 7);
            (q, w2)
        },
        Task::Flush { amounts } => (flushed(p, w, amounts, flush_actions(w).len()), w),
    }
}

/// The store and the writer after tasks are done, one after the other.
pub open spec fn after_tasks(p: Pending, w: Writer, tasks: Seq<Task>) -> (Pending, Writer)
    decreases tasks.len(),
{
    if tasks.len() == 0 {
        (p, w)
    } else {
        let (q, w2) = after_tasks(p, w, tasks.drop_last());
        after_task(q, w2, tasks.last())
    }
}

/// Whether a task's frame fits a segment, and the offsets that its append may
/// come to are 64-bit numbers.
pub open spec fn task_has_room(w: Writer, task: Task) -> bool {
    match task {
        Task::Append { frame, .. } => frame.len() <= SEGMENT_SIZE && w.next_offset + SEGMENT_SIZE
            + frame.len() <= u64::MAX,
        Task::Flush { .. } => true,
    }
}

/// Whether every task has room by the time it is its turn.
pub open spec fn tasks_have_room(p: Pending, w: Writer, tasks: Seq<Task>) -> bool {
    forall|i: int|
        0 <= i < tasks.len() ==> task_has_room(
            after_tasks(p, w, tasks.take(i)).1,
            #[trigger] tasks[i],
        )
}

/// A store of which everything is on disk is one that a writer can go on from
/// and whose entries point at data, if that holds of its files.
pub proof fn law_a_settled_store_points_at_data(disk: Disk, w: Writer)
    requires
        disk.fits(w),
        disk.sound(),
        w.segment is None,
    ensures
        ({
            let p = Pending { disk, open: None, segment: Seq::empty(), index: Seq::empty() };
            &&& p.whole() == disk
            &&& p.fits(w)
            &&& points_at_data(p.disk)
        }),
{
    let p = Pending { disk, open: None, segment: Seq::empty(), index: Seq::empty() };
    assert(disk.index->0 + p.index.take(0) =~= disk.index->0);
    assert(p.whole() =~= disk);
}

/// An entry on disk never points at bytes that did not make it: after any
/// number of appends and flushes, and at any moment of a further append, every
/// entry that the index on disk has points at data on disk, however much of
/// what was written to segments has got there. Once they are done, the writer
/// can go on from the store.
pub proof fn law_entries_on_disk_point_at_data(
    p: Pending,
    w: Writer,
    tasks: Seq<Task>,
    frame: Seq<u8>,
    amounts: Seq<int>,
    steps: nat,
)
    requires
        p.fits(w),
        points_at_data(p.disk),
        tasks_have_room(p, w, tasks),
    ensures
        ({
            let (q, w2) = after_tasks(p, w, tasks);
            let (w3, a) = append_start(w2, frame);
            &&& q.fits(w2)
            &&& points_at_data(q.disk)
            &&& points_at_data(pending_steps(q, w3, a, amounts, steps).0.disk)
        }),
    decreases tasks.len(),
{
    if tasks.len() > 0 {
        let before = tasks.drop_last();
        let last = tasks.last();
        assert forall|i: int| 0 <= i < before.len() implies task_has_room(
            after_tasks(p, w, before.take(i)).1,
            #[trigger] before[i],
        ) by {
            assert(before[i] == tasks[i]);
            assert(before.take(i) =~= tasks.take(i));
        }
        law_entries_on_disk_point_at_data(p, w, before, frame, amounts, steps);
        let (q, w2) = after_tasks(p, w, before);
        assert(task_has_room(w2, tasks[tasks.len() - 1])) by {
            assert(tasks.take(tasks.len() - 1) =~= before);
        }
        match last {
            Task::Append { frame: new, amounts: reached } => {
                lemma_task_append(q, w2, new, reached);
            },
            Task::Flush { amounts: reached } => {
                law_flush_leaves_no_dangling_entry(q, w2, reached, flush_actions(w2).len());
            },
        }
    }
    let (q, w2) = after_tasks(p, w, tasks);
    let (w3, a) = append_start(w2, frame);
    lemma_pending_steps(q, w3, a, amounts, steps);
}

proof fn lemma_task_append(p: Pending, w: Writer, frame: Seq<u8>, amounts: Seq<int>)
    requires
        p.fits(w),
        points_at_data(p.disk),
        frame.len() <= SEGMENT_SIZE,
        w.next_offset + SEGMENT_SIZE + frame.len() <= u64::MAX,
    ensures
        ({
            let (q, w2) = after_task(p, w, Task::Append { frame, amounts });
            &&& q.fits(w2)
            &&& points_at_data(q.disk)
        }),
{
    let (w1, a) = append_start(w, frame);
    lemma_pending_steps(p, w1, a, amounts, 7);
    lemma_append_steps(p.whole(), w1, a, 7);
    law_appended_is_read_back(p.whole(), w, frame);
}

/// The bytes that lie where a block is located are its frame: on files that
/// hold an entry's data, what the segment has at the position, as long as the
/// entry says, is what the entry points at.
pub proof fn law_located_bytes_are_the_frame(disk: Disk, entry: Entry, extent: Extent)
    requires
        disk.holds(entry),
        extent_of(entry) == Some(extent),
    ensures
        extent.position + extent.len <= disk.segment(extent.segment as int).len(),
        extent.position + extent.len <= 0x8000_0000,
        disk.frame(entry) == Some(
            disk.segment(extent.segment as int).subrange(
                extent.position as int,
                extent.position + extent.len,
            ),
        ),
{
}

/// The files, and the segment that their driver has open.
#[verifier::ext_equal]
pub struct Driver {
    pub disk: Disk,
    pub open: Option<int>,
}

impl Driver {
    /// The files with `data` behind what the open segment holds.
    pub open spec fn extended(self, data: Seq<u8>) -> (Driver, Event) {
        match self.open {
            Some(open) => (
                Driver {
                    disk: Disk {
                        segments: self.disk.segments.insert(open, self.disk.segment(open) + data),
                        ..self.disk
                    },
                    ..self
                },
                Event::Done,
            ),
            None => (self, Event::Failed),
        }
    }

    /// What the driver makes of the files when it does what an action says, and
    /// what it reports. All that it knows is the action and the frame.
    pub open spec fn after_action(self, frame: Seq<u8>, action: Action) -> (Driver, Event) {
        match action {
            Action::FlushSegment => (Driver { open: None, ..self }, Event::Done),
            Action::OpenSegment { segment } => (
                Driver {
                    disk: Disk {
                        segments: self.disk.segments.insert(
                            segment as int,
                            self.disk.segment(segment as int),
                        ),
                        ..self.disk
                    },
                    open: Some(segment as int),
                },
                Event::Length { position: self.disk.segment(segment as int).len() as u64 },
            ),
            Action::WriteZeros { count } => self.extended(Seq::new(count as nat, |i: int| 0u8)),
            Action::WriteFrame => self.extended(frame),
            Action::WriteEntry { entry } => (
                Driver {
                    disk: Disk {
                        index: Some(self.disk.index->0 + entry_bytes(entry)),
                        ..self.disk
                    },
                    ..self
                },
                Event::Done,
            ),
            Action::Finished => (self, Event::Done),
        }
    }

    /// Whether the segment that a writer counts as open is the one that the
    /// driver has open.
    pub open spec fn agrees(self, w: Writer, a: AppendState) -> bool {
        &&& w.segment is Some ==> self.open == w.segment
        &&& match a.stage {
            Stage::Flush | Stage::Open => w.segment is None,
            Stage::Write => w.segment is Some,
            _ => true,
        }
    }
}

/// Doing what the writer says for an append is what the append is said to do:
/// the action that the writer hands out, carried out to the letter, makes of
/// the files what [`perform`] makes of them and reports the same. The driver and
/// the writer agree on the open segment afterwards as they did before.
pub proof fn law_actions_do_what_appending_does(v: Driver, w: Writer, a: AppendState)
    requires
        append_has_room(w, a),
        v.agrees(w, a),
        a.stage != Stage::End,
    ensures
        ({
            let (v2, event) = v.after_action(a.frame, append_action(w, a));
            let (w2, a2, _) = append_next(w, a, event);
            &&& (v2.disk, event) == perform(v.disk, w, a)
            &&& append_has_room(w2, a2)
            &&& v2.agrees(w2, a2)
        }),
{
    assert(w.wanted() as u64 == w.wanted());
    assert(w.pad() as u64 == w.pad());
}

/// The files, the writer and the append after the driver carried out the first
/// `steps` actions that it was given for the append, and none failed.
pub open spec fn driven(v: Driver, w: Writer, a: AppendState, steps: nat) -> (
    Driver,
    Writer,
    AppendState,
)
    decreases steps,
{
    if steps == 0 || append_action(w, a) == Action::Finished {
        (v, w, a)
    } else {
        let (v2, event) = v.after_action(a.frame, append_action(w, a));
        let (w2, a2, _) = append_next(w, a, event);
        driven(v2, w2, a2, (steps - 1) as nat)
    }
}

proof fn lemma_driven(v: Driver, w: Writer, a: AppendState, steps: nat)
    requires
        append_has_room(w, a),
        v.agrees(w, a),
    ensures
        ({
            let (v2, w2, a2) = driven(v, w, a, steps);
            &&& (v2.disk, w2, a2) == append_steps(v.disk, w, a, steps)
            &&& v2.agrees(w2, a2)
        }),
    decreases steps,
{
    if steps > 0 && a.stage != Stage::End {
        law_actions_do_what_appending_does(v, w, a);
        let (v2, event) = v.after_action(a.frame, append_action(w, a));
        let (w2, a2, _) = append_next(w, a, event);
        lemma_driven(v2, w2, a2, (steps - 1) as nat);
    }
}

/// What an append comes to when the driver does what it is told, in bytes. The
/// frame goes behind all data, at the next offset, or to the next multiple of 2
/// to the 31 if it would straddle that; the bytes up to there become zeros. The
/// index grows by twelve bytes that spell the offset at which the frame was
/// written and its length. Nothing else changes in any file, the writer has one
/// block more and goes on behind the frame, and seven actions are enough.
pub proof fn law_a_driven_append(v: Driver, w: Writer, frame: Seq<u8>)
    requires
        0 <= w.blocks < 0xffff_ffff_ffff_ffff,
        0 <= w.next_offset <= 0xffff_ffff_ffff_ffff,
        w.segment is Some ==> v.open == w.segment,
        v.disk.index is Some,
        frame.len() > 0 ==> {
            &&& frame.len() <= 0x8000_0000
            &&& w.next_offset + 0x8000_0000 + frame.len() <= 0xffff_ffff_ffff_ffff
            &&& v.disk.segment(w.next_offset / 0x8000_0000).len() == w.next_offset % 0x8000_0000
            &&& v.disk.segment(w.next_offset / 0x8000_0000 + 1).len() == 0
        },
    ensures
        ({
            let (w1, a1) = append_start(w, frame);
            let (v2, w2, a2) = driven(v, w1, a1, 7);
            let at = w.next_offset / 0x8000_0000;
            let straddles = frame.len() > 0 && w.next_offset % 0x8000_0000 + frame.len()
                > 0x8000_0000;
            let offset = if straddles {
                (at + 1) * 0x8000_0000
            } else {
                w.next_offset
            };
            let old = v.disk;
            let new = v2.disk;
            let grown = old.index->0.len() as int;
            &&& append_action(w2, a2) == Action::Finished
            &&& w2.blocks == w.blocks + 1
            &&& w2.next_offset == offset + frame.len()
            &&& w2.segment is Some ==> v2.open == w2.segment
            &&& new.index is Some
            &&& new.index->0.len() == grown + 12
            &&& new.index->0.take(grown) == old.index->0
            &&& le_value(new.index->0.subrange(grown, grown + 8)) == offset
            &&& le_value(new.index->0.subrange(grown + 8, grown + 12)) == frame.len()
            &&& frame.len() == 0 ==> new.segments == old.segments
            &&& frame.len() > 0 ==> {
                let there = new.segment(offset / 0x8000_0000);
                let position = offset % 0x8000_0000;
                &&& there.len() == position + frame.len()
                &&& there.skip(position) == frame
                &&& !straddles ==> there.take(position) == old.segment(at)
            }
            &&& straddles ==> {
                let filled = new.segment(at);
                &&& filled.len() == 0x8000_0000
                &&& filled.take(w.next_offset % 0x8000_0000) == old.segment(at)
                &&& forall|i: int|
                    w.next_offset % 0x8000_0000 <= i < 0x8000_0000 ==> #[trigger] filled[i] == 0
            }
            &&& forall|n: int|
                n != at && n != offset / 0x8000_0000 ==> {
                    &&& #[trigger] new.segments.contains_key(n) == old.segments.contains_key(n)
                    &&& new.segment(n) == old.segment(n)
                }
        }),
{
    let (w1, a1) = append_start(w, frame);
    let at = w.next_offset / 0x8000_0000;
    lemma_driven(v, w1, a1, 7);
    lemma_append_steps(v.disk, w1, a1, 7);
    if frame.len() > 0 {
        law_append_run(v.disk, w, frame);
    } else {
        reveal_with_fuel(run_append, 3);
    }
    let (v2, w2, a2) = driven(v, w1, a1, 7);
    let old = v.disk;
    let new = appended_disk(old, w, frame);
    assert(v2.disk == new && w2 == appended_writer(w, frame));
    let grown = old.index->0.len() as int;
    let entry = entry_for(landing(w, frame), frame);
    law_entry_layout(entry);
    assert(new.index->0.take(grown) =~= old.index->0);
    assert(new.index->0.subrange(grown, grown + 8) =~= entry_bytes(entry).subrange(0, 8));
    assert(new.index->0.subrange(grown + 8, grown + 12) =~= entry_bytes(entry).subrange(8, 12));
    if frame.len() > 0 {
        if needs_padding(w, frame) {
            assert(landing(w, frame) == (at + 1) * 0x8000_0000);
            assert(new.segment(at + 1) =~= frame);
            assert(new.segment(at + 1).skip(0) =~= frame);
            assert(new.segment(at).take(w.position()) =~= old.segment(at));
        } else {
            assert(new.segment(at).skip(w.position()) =~= frame);
            assert(new.segment(at).take(w.position()) =~= old.segment(at));
        }
    }
}

/// What was appended by the actions that the writer handed out is what is read
/// back: the witness of the new block is what the frame holds, those of the
/// blocks before are what they were, and the writer can go on.
pub proof fn law_a_driven_append_is_read_back(v: Driver, w: Writer, stream: Seq<u8>)
    requires
        w.segment is Some ==> v.open == w.segment,
        v.disk.fits(w),
        v.disk.sound(),
        0 <= w.blocks < 0xffff_ffff_ffff_ffff,
    ensures
        ({
            let frame = frame_of(stream);
            &&& frame.len() <= 0x8000_0000
            &&& w.next_offset + 0x8000_0000 + frame.len() <= 0xffff_ffff_ffff_ffff
            &&& stream.len() > 0 ==> unframed(frame) == Some(stream)
        } ==> {
            let frame = frame_of(stream);
            let (w1, a1) = append_start(w, frame);
            let (v2, w2, a2) = driven(v, w1, a1, 7);
            &&& append_action(w2, a2) == Action::Finished
            &&& v2.disk.entries().len() == w.blocks + 1
            &&& v2.disk.witness(w.blocks) == Some(stream)
            &&& forall|m: int|
                0 <= m < w.blocks ==> #[trigger] v2.disk.witness(m) == v.disk.witness(m)
            &&& v2.disk.fits(w2)
            &&& v2.disk.sound()
            &&& w2.segment is Some ==> v2.open == w2.segment
        }),
{
    let frame = frame_of(stream);
    if frame.len() <= 0x8000_0000 && w.next_offset + 0x8000_0000 + frame.len()
        <= 0xffff_ffff_ffff_ffff && (stream.len() > 0 ==> unframed(frame) == Some(stream)) {
        let (w1, a1) = append_start(w, frame);
        lemma_driven(v, w1, a1, 7);
        lemma_append_steps(v.disk, w1, a1, 7);
        law_appended_is_read_back(v.disk, w, frame);
        if stream.len() == 0 {
            assert(stream =~= Seq::empty());
        }
    }
}

/// A segment is written to only if it is as long as the next offset has it:
/// else the append ends there, with the segment, the length that was found and
/// the one that was expected, and the writer stays as it is.
pub proof fn law_only_a_segment_of_the_right_length_is_written_to(
    w: Writer,
    a: AppendState,
    position: u64,
)
    requires
        0 <= w.next_offset <= 0xffff_ffff_ffff_ffff,
        a.stage == Stage::Open,
    ensures
        ({
            let (w2, a2, fault) = append_next(w, a, Event::Length { position });
            &&& append_action(w, a) matches Action::OpenSegment { segment } && segment
                == w.next_offset / 0x8000_0000
            &&& w2.blocks == w.blocks
            &&& w2.next_offset == w.next_offset
            &&& if position == w.next_offset % 0x8000_0000 {
                &&& fault is None
                &&& w2.segment == Some(w.next_offset / 0x8000_0000)
                &&& a2.frame == a.frame
                &&& a2.stage == Stage::Write
            } else {
                &&& fault matches Some(
                    IndexFault::SegmentLength { segment, position: found, expected },
                )
                &&& segment == w.next_offset / 0x8000_0000
                &&& found == position
                &&& expected == w.next_offset % 0x8000_0000
                &&& w2 == w
                &&& append_action(w2, a2) == Action::Finished
            }
        }),
{
}

/// What becomes of the files when an action of an opening is carried out to
/// the letter, with `index` the bytes that the opening has for the index file,
/// and what is reported.
pub open spec fn after_open_action(disk: Disk, index: Seq<u8>, action: OpenAction) -> (
    Disk,
    OpenEvent,
) {
    match action {
        OpenAction::WriteIndex => (Disk { index: Some(index), ..disk }, OpenEvent::Done),
        OpenAction::ProbeSegment { segment } => (
            disk,
            if disk.segments.contains_key(segment as int) {
                OpenEvent::Present
            } else {
                OpenEvent::Absent
            },
        ),
        OpenAction::RemoveSegment { segment } => (
            Disk { segments: disk.segments.remove(segment as int), ..disk },
            OpenEvent::Done,
        ),
        OpenAction::CutSegment { segment, len } => (
            Disk {
                segments: disk.segments.insert(
                    segment as int,
                    Seq::new(
                        len as nat,
                        |i: int|
                            if i < disk.segment(segment as int).len() {
                                disk.segment(segment as int)[i]
                            } else {
                                0
                            },
                    ),
                ),
                ..disk
            },
            OpenEvent::Done,
        ),
        OpenAction::Ready => (disk, OpenEvent::Done),
    }
}

/// The files after the first `steps` actions that an opening hands out were
/// carried out, and how far it has come.
pub open spec fn open_driven(disk: Disk, o: OpeningState, steps: nat) -> (
    Disk,
    Result<OpenStage, IndexFault>,
)
    decreases steps,
{
    if steps == 0 || open_action(o) == OpenAction::Ready {
        (disk, Ok(o.stage))
    } else {
        let (disk2, event) = after_open_action(disk, o.index, open_action(o));
        match open_next(o, event) {
            Ok(stage) => open_driven(disk2, OpeningState { stage, ..o }, (steps - 1) as nat),
            Err(fault) => (disk2, Err(fault)),
        }
    }
}

/// Doing what an opening says is what opening is said to do: its action,
/// carried out to the letter, makes of the files what [`perform_open`] makes of
/// them and reports the same.
pub proof fn law_actions_do_what_opening_does(disk: Disk, o: OpeningState)
    requires
        0 <= o.end <= 0xffff_ffff_ffff_ffff,
    ensures
        after_open_action(disk, o.index, open_action(o)) == perform_open(disk, o),
{
    let last = segment_of(o.end);
    assert(last as u64 == last);
    assert(position_of(o.end) as u64 == position_of(o.end));
    if o.stage == OpenStage::Cut {
        let cut = after_open_action(disk, o.index, open_action(o)).0;
        assert(cut.segments[last] =~= resized(disk.segment(last), position_of(o.end)));
    }
}

proof fn lemma_open_driven(disk: Disk, o: OpeningState, steps: nat)
    requires
        0 <= o.end <= 0xffff_ffff_ffff_ffff,
    ensures
        open_driven(disk, o, steps) == open_run(disk, o, steps),
    decreases steps,
{
    if steps > 0 && o.stage != OpenStage::Open {
        law_actions_do_what_opening_does(disk, o);
        let (disk2, event) = perform_open(disk, o);
        if let Ok(stage) = open_next(o, event) {
            lemma_open_driven(disk2, OpeningState { stage, ..o }, (steps - 1) as nat);
        }
    }
}

/// What an opening comes to when its actions are carried out, in bytes. The
/// index file holds the bytes of the opening. The segment in which the data
/// ends is as long as the data has it, and starts with what it held; those
/// behind it, up to the first that is not there, are gone, and all others are
/// what they were. The opening ends on a missing segment just if the data ends
/// inside of one that is not there.
pub proof fn law_a_driven_opening(disk: Disk, o: OpeningState, gap: int, steps: nat)
    requires
        0 <= o.end <= 0xffff_ffff_ffff_ffff,
        open_action(o) == OpenAction::WriteIndex,
        o.end / 0x8000_0000 < gap <= 0xffff_ffff_ffff_ffff,
        !disk.segments.contains_key(gap),
        forall|n: int|
            o.end / 0x8000_0000 < n < gap ==> #[trigger] disk.segments.contains_key(n),
        steps >= 2 * (gap - o.end / 0x8000_0000) + 2,
    ensures
        ({
            let (new, went) = open_driven(disk, o, steps);
            let last = o.end / 0x8000_0000;
            let position = o.end % 0x8000_0000;
            &&& new.index == Some(o.index)
            &&& if position != 0 && !disk.segments.contains_key(last) {
                went matches Err(IndexFault::MissingSegment { segment }) && segment == last
            } else {
                went matches Ok(stage) && open_action(OpeningState { stage, ..o })
                    == OpenAction::Ready
            }
            &&& new.segments.contains_key(last) == disk.segments.contains_key(last)
            &&& disk.segments.contains_key(last) ==> {
                &&& new.segments[last].len() == position
                &&& forall|i: int|
                    0 <= i < position && i < disk.segments[last].len()
                        ==> #[trigger] new.segments[last][i] == disk.segments[last][i]
            }
            &&& forall|n: int| last < n < gap ==> !#[trigger] new.segments.contains_key(n)
            &&& forall|n: int|
                n < last || gap <= n ==> {
                    &&& #[trigger] new.segments.contains_key(n) == disk.segments.contains_key(n)
                    &&& new.segments.contains_key(n) ==> new.segments[n] == disk.segments[n]
                }
        }),
{
    lemma_open_driven(disk, o, steps);
    assert(first_gap(disk, segment_of(o.end), gap));
    law_opening_run(disk, o, gap, steps);
    let new = opened_disk(disk, o, gap);
    let last = segment_of(o.end);
    if disk.segments.contains_key(last) {
        assert(new.segments[last] == resized(disk.segments[last], position_of(o.end)));
    }
}

/// A look for a segment is followed by its removal just if it is there, and the
/// last look by the cut.
pub proof fn law_opening_order(o: OpeningState, segment: u64)
    requires
        0 <= o.end <= 0xffff_ffff_ffff_ffff,
    ensures
        ({
            let last = o.end / 0x8000_0000;
            let probe = OpeningState { stage: OpenStage::Probe { segment }, ..o };
            let written = OpeningState { stage: OpenStage::Index, ..o };
            &&& open_action(probe) == (OpenAction::ProbeSegment { segment })
            &&& open_next(probe, OpenEvent::Present) matches Ok(stage) && open_action(
                OpeningState { stage, ..o },
            ) == (OpenAction::RemoveSegment { segment })
            &&& open_next(probe, OpenEvent::Absent) matches Ok(stage) && open_action(
                OpeningState { stage, ..o },
            ) == (OpenAction::ProbeSegment { segment: last as u64 })
            &&& open_next(written, OpenEvent::Done) matches Ok(stage) && open_action(
                OpeningState { stage, ..o },
            ) == (OpenAction::ProbeSegment { segment: (last + 1) as u64 })
        }),
{
}

} // verus!
