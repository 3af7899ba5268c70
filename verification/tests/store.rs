//! Writing, reopening and reading a store, over files kept in memory.
use std::collections::BTreeMap;
use witness::frame::{choose_frame, decode_frame, decode_outcome, encode_frame};
use witness::index::{
    header, index_name, read_index, segment_name, write_index, Entry, IndexFault, SEGMENT_SIZE,
};
use witness::store::{Action, Event, Extent, FlushAction, OpenAction, OpenEvent};
use witness::{StoreError, WitnessStore, WitnessWriter};

/// A file that is mostly zeros.
#[derive(Default)]
struct Sparse {
    len: u64,
    parts: Vec<(u64, Vec<u8>)>,
}

impl Sparse {
    fn write(&mut self, bytes: &[u8]) {
        self.parts.push((self.len, bytes.to_vec()));
        self.len += bytes.len() as u64;
    }

    fn set_len(&mut self, len: u64) {
        self.len = len;
        self.parts.retain(|(at, _)| *at < len);
        for (at, bytes) in &mut self.parts {
            bytes.truncate((len - *at) as usize);
        }
    }

    fn read(&self, position: u64, len: u32) -> Vec<u8> {
        assert!(position + len as u64 <= self.len);
        let mut out = vec![0u8; len as usize];
        for (at, bytes) in &self.parts {
            for (i, byte) in bytes.iter().enumerate() {
                let place = at + i as u64;
                if place >= position && place < position + len as u64 {
                    out[(place - position) as usize] = *byte;
                }
            }
        }
        out
    }
}

#[derive(Default)]
struct Files {
    index: Option<Vec<u8>>,
    waiting: Vec<u8>,
    segments: BTreeMap<u64, Sparse>,
    open: Option<u64>,
    seen: Vec<Action>,
}

impl Files {
    fn open_at(&mut self, next_block: u64) -> Result<WitnessWriter, StoreError> {
        let mut opening = WitnessWriter::open(self.index.as_deref(), next_block)?;
        self.waiting.clear();
        loop {
            let event = match opening.action() {
                OpenAction::WriteIndex => {
                    self.index = Some(opening.index().clone());
                    OpenEvent::Done
                }
                OpenAction::ProbeSegment { segment } => {
                    if self.segments.contains_key(&segment) {
                        OpenEvent::Present
                    } else {
                        OpenEvent::Absent
                    }
                }
                OpenAction::RemoveSegment { segment } => {
                    self.segments.remove(&segment).expect("probed");
                    OpenEvent::Done
                }
                OpenAction::CutSegment { segment, len } => {
                    self.segments.get_mut(&segment).expect("probed").set_len(len);
                    OpenEvent::Done
                }
                OpenAction::Ready => return Ok(opening.into_writer()),
            };
            opening.step(event)?;
        }
    }

    fn append(
        &mut self,
        writer: &mut WitnessWriter,
        number: u64,
        stream: &[u8],
    ) -> Result<(), StoreError> {
        let mut append = writer.append(number, stream)?;
        loop {
            let action = writer.action(&append);
            self.seen.push(action);
            let event = match action {
                Action::FlushSegment => {
                    self.open = None;
                    Event::Done
                }
                Action::OpenSegment { segment } => {
                    self.open = Some(segment);
                    Event::Length { position: self.segments.entry(segment).or_default().len }
                }
                Action::WriteZeros { count } => {
                    let open = self.open.expect("a segment is open");
                    self.segments.get_mut(&open).unwrap().len += count;
                    Event::Done
                }
                Action::WriteFrame => {
                    let open = self.open.expect("a segment is open");
                    self.segments.get_mut(&open).unwrap().write(append.frame());
                    Event::Done
                }
                Action::WriteEntry { entry } => {
                    self.waiting.extend_from_slice(&entry.to_bytes());
                    Event::Done
                }
                Action::Finished => return Ok(()),
            };
            writer.step(&mut append, event)?;
        }
    }

    fn flush(&mut self, writer: &WitnessWriter) {
        for action in writer.flush() {
            if action == FlushAction::FlushIndex {
                self.index.as_mut().unwrap().append(&mut self.waiting);
            }
        }
    }

    fn store(&self) -> Result<WitnessStore, StoreError> {
        WitnessStore::open(self.index.as_ref().expect("an index"))
    }

    fn read(&self, store: &WitnessStore, block: u64, out: &mut Vec<u8>) -> Result<(), StoreError> {
        let frame = match store.locate(block) {
            Ok(Some(Extent { segment, position, len })) => {
                self.segments[&segment].read(position, len)
            }
            _ => Vec::new(),
        };
        store.read(block, &frame, out)
    }

    fn len_of(&self, segment: u64) -> u64 {
        self.segments[&segment].len
    }
}

fn stream(n: u64, len: usize) -> Vec<u8> {
    (0..len).map(|i| (i as u64 * 31 + n) as u8).collect()
}

#[test]
fn what_is_written_is_read_back_block_by_block() {
    let mut files = Files::default();
    let mut writer = files.open_at(1).unwrap();
    assert_eq!(writer.blocks(), 1, "block 0 got its empty entry");
    for n in 1..=200u64 {
        files.append(&mut writer, n, &stream(n, (n as usize * 37) % 500)).unwrap();
    }
    files.flush(&writer);

    let store = files.store().unwrap();
    assert_eq!(store.blocks(), 201);
    let mut out = Vec::new();
    files.read(&store, 0, &mut out).unwrap();
    assert!(out.is_empty());
    for n in 1..=200u64 {
        files.read(&store, n, &mut out).unwrap();
        assert_eq!(out, stream(n, (n as usize * 37) % 500), "block {n}");
    }
    assert!(matches!(files.read(&store, 201, &mut out), Err(StoreError::Missing { .. })));
}

#[test]
fn reopening_behind_the_end_drops_what_execution_will_redo() {
    let mut files = Files::default();
    let mut writer = files.open_at(1).unwrap();
    for n in 1..=10u64 {
        files.append(&mut writer, n, &stream(n, 100)).unwrap();
    }
    files.flush(&writer);
    drop(writer);

    // Execution resumes at 6: 6..=10 are gone, 6 is appended afresh.
    let mut writer = files.open_at(6).unwrap();
    assert_eq!(writer.blocks(), 6);
    assert!(matches!(
        files.append(&mut writer, 7, &[]),
        Err(StoreError::OutOfOrder { expected: 6, given: 7 })
    ));
    files.append(&mut writer, 6, &stream(60, 100)).unwrap();
    files.flush(&writer);

    let store = files.store().unwrap();
    assert_eq!(store.blocks(), 7);
    let mut out = Vec::new();
    files.read(&store, 5, &mut out).unwrap();
    assert_eq!(out, stream(5, 100));
    files.read(&store, 6, &mut out).unwrap();
    assert_eq!(out, stream(60, 100));
    assert_eq!(segment_name(0), "witness.0000.dat");
    let data = files.len_of(0);
    assert!(data < 7 * 101, "data past the kept entries was truncated: {data} bytes");
}

#[test]
fn a_gap_is_refused() {
    let mut files = Files::default();
    let mut writer = files.open_at(1).unwrap();
    files.append(&mut writer, 1, &[1, 2, 3]).unwrap();
    files.flush(&writer);
    drop(writer);
    assert!(matches!(files.open_at(5), Err(StoreError::Gap { recorded: 2, resume: 5 })));
    assert!(files.open_at(2).is_ok());
}

#[test]
fn short_streams_stay_raw_and_long_ones_compress() {
    let mut files = Files::default();
    let mut writer = files.open_at(1).unwrap();
    files.append(&mut writer, 1, &[7; 10]).unwrap();
    files.append(&mut writer, 2, &[7; 10_000]).unwrap();
    files.flush(&writer);
    assert_eq!(segment_name(0), "witness.0000.dat");
    let data = files.len_of(0);
    assert!(data > 11 && data < 1_000, "{data}");
    let store = files.store().unwrap();
    let mut out = Vec::new();
    files.read(&store, 2, &mut out).unwrap();
    assert_eq!(out, [7; 10_000]);
}

#[test]
fn the_files_of_a_small_store_are_these() {
    let mut files = Files::default();
    let mut writer = files.open_at(1).unwrap();
    files.append(&mut writer, 1, &[1, 2, 3]).unwrap();
    files.append(&mut writer, 2, &[]).unwrap();
    files.append(&mut writer, 3, &[9]).unwrap();
    assert_eq!(files.store().unwrap().blocks(), 1, "entries wait for a flush");
    files.flush(&writer);
    let mut index = vec![b'N', b'4', b'2', b'W', 1, 0, 31, 0, 0, 0, 0, 0, 0, 0, 0, 0];
    index.extend_from_slice(&[0; 12]);
    index.extend_from_slice(&[0, 0, 0, 0, 0, 0, 0, 0, 4, 0, 0, 0]);
    index.extend_from_slice(&[4, 0, 0, 0, 0, 0, 0, 0, 0, 0, 0, 0]);
    index.extend_from_slice(&[4, 0, 0, 0, 0, 0, 0, 0, 2, 0, 0, 0]);
    assert_eq!(files.index.as_ref().unwrap(), &index);
    assert_eq!(files.segments[&0].read(0, 6), [0, 1, 2, 3, 0, 9]);
    assert_eq!(
        files.seen,
        [
            Action::OpenSegment { segment: 0 },
            Action::WriteFrame,
            Action::WriteEntry { entry: Entry { offset: 0, len: 4 } },
            Action::Finished,
            Action::WriteEntry { entry: Entry { offset: 4, len: 0 } },
            Action::Finished,
            Action::WriteFrame,
            Action::WriteEntry { entry: Entry { offset: 4, len: 2 } },
            Action::Finished,
        ]
    );
    let store = files.store().unwrap();
    assert_eq!(store.locate(1).unwrap(), Some(Extent { segment: 0, position: 0, len: 4 }));
    assert_eq!(store.locate(2).unwrap(), None);
    assert!(matches!(store.locate(4), Err(StoreError::Missing { recorded: 4, block: 4 })));
}

#[test]
fn only_a_fresh_store_opened_at_one_gets_the_entry_of_block_zero() {
    let mut files = Files::default();
    assert_eq!(files.open_at(0).unwrap().blocks(), 0);
    assert_eq!(files.store().unwrap().blocks(), 0);
    assert!(matches!(files.open_at(2), Err(StoreError::Gap { recorded: 0, resume: 2 })));
    assert_eq!(files.open_at(1).unwrap().blocks(), 1);
    assert_eq!(files.store().unwrap().blocks(), 1);
}

/// A store of two blocks whose data ends sixteen bytes before a segment does.
fn nearly_full() -> Files {
    let entries = vec![
        Entry { offset: 0, len: 0 },
        Entry { offset: SEGMENT_SIZE - 0x100, len: 0xF0 },
    ];
    let mut files = Files::default();
    files.index = Some(write_index(&entries));
    files.segments.insert(0, Sparse { len: SEGMENT_SIZE - 0x10, parts: Vec::new() });
    files
}

#[test]
fn a_frame_that_does_not_fit_starts_the_next_segment() {
    let mut files = nearly_full();
    let mut writer = files.open_at(2).unwrap();
    files.append(&mut writer, 2, &stream(2, 60)).unwrap();
    assert_eq!(
        files.seen,
        [
            Action::OpenSegment { segment: 0 },
            Action::WriteZeros { count: 16 },
            Action::FlushSegment,
            Action::OpenSegment { segment: 1 },
            Action::WriteFrame,
            Action::WriteEntry { entry: Entry { offset: SEGMENT_SIZE, len: 61 } },
            Action::Finished,
        ]
    );
    assert_eq!(files.len_of(0), SEGMENT_SIZE);
    assert_eq!(files.len_of(1), 61);
    files.flush(&writer);
    let store = files.store().unwrap();
    let mut out = Vec::new();
    files.read(&store, 2, &mut out).unwrap();
    assert_eq!(out, stream(2, 60));

    // Reopened where it was, the segment is removed and padding is cut off.
    let writer = files.open_at(2).unwrap();
    assert_eq!(writer.blocks(), 2);
    assert!(!files.segments.contains_key(&1));
    assert_eq!(files.len_of(0), SEGMENT_SIZE - 16);
}

#[test]
fn a_frame_that_just_fits_fills_the_segment() {
    let mut files = nearly_full();
    let mut writer = files.open_at(2).unwrap();
    files.append(&mut writer, 2, &stream(2, 15)).unwrap();
    assert_eq!(files.len_of(0), SEGMENT_SIZE);
    files.append(&mut writer, 3, &[5]).unwrap();
    assert_eq!(files.len_of(1), 2);
    files.flush(&writer);
    let store = files.store().unwrap();
    let mut out = Vec::new();
    files.read(&store, 2, &mut out).unwrap();
    assert_eq!(out, stream(2, 15));
    files.read(&store, 3, &mut out).unwrap();
    assert_eq!(out, [5]);
}

#[test]
fn a_segment_of_another_length_is_refused() {
    let mut files = nearly_full();
    let mut writer = files.open_at(2).unwrap();
    files.segments.insert(1, Sparse { len: 3, parts: Vec::new() });
    let index = files.index.clone();
    match files.append(&mut writer, 2, &stream(2, 60)) {
        Err(StoreError::Index { what }) => {
            assert_eq!(
                what,
                IndexFault::SegmentLength { segment: 1, position: 3, expected: 0 }
            );
            assert_eq!(what.describe(), "segment 1 is 3 bytes, the index expects 0");
        }
        other => panic!("{other:?}"),
    }
    assert_eq!(files.index, index);
    assert_eq!(writer.blocks(), 2);
}

#[test]
fn nothing_is_appended_past_the_last_offsets() {
    let end = u64::MAX - SEGMENT_SIZE;
    let mut files = Files::default();
    files.index = Some(write_index(&vec![Entry { offset: end, len: 0 }]));
    files
        .segments
        .insert(end / SEGMENT_SIZE, Sparse { len: end % SEGMENT_SIZE, parts: Vec::new() });
    let mut writer = files.open_at(1).unwrap();
    assert_eq!(writer.blocks(), 1);
    assert!(matches!(writer.append_if_fits(1, &[1]), Ok(None)));
    assert!(matches!(writer.append_if_fits(1, &[7; 100]), Ok(None)));
    assert!(matches!(
        writer.append(9, &[1, 2, 3]),
        Err(StoreError::OutOfOrder { expected: 1, given: 9 })
    ));
    assert!(matches!(
        writer.append_if_fits(9, &[1, 2, 3]),
        Err(StoreError::OutOfOrder { expected: 1, given: 9 })
    ));
    assert!(matches!(writer.append_if_fits(1, &[]), Ok(Some(_))));
    files.append(&mut writer, 1, &[]).unwrap();
    files.flush(&writer);
    assert_eq!(files.store().unwrap().blocks(), 2);
    let past = Entry { offset: end + 1, len: 0 };
    assert_eq!(read_index(&write_index(&vec![past])), Err(IndexFault::Entry { number: 0 }));
}

#[test]
fn what_fits_is_appended_as_ever() {
    let mut files = Files::default();
    let mut writer = files.open_at(1).unwrap();
    let append = writer.append_if_fits(1, &[5]).unwrap().unwrap();
    assert_eq!(append.frame(), &[0, 5]);
    assert_eq!(writer.action(&append), Action::OpenSegment { segment: 0 });
    let append = writer.append_if_fits(1, &[7; 10_000]).unwrap().unwrap();
    assert_eq!(append.frame(), &encode_frame(&[7; 10_000]).unwrap());
    let append = writer.append_if_fits(1, &[]).unwrap().unwrap();
    assert_eq!(
        writer.action(&append),
        Action::WriteEntry { entry: Entry { offset: 0, len: 0 } }
    );
}

#[test]
fn an_action_that_fails_ends_the_append() {
    let mut files = Files::default();
    let mut writer = files.open_at(1).unwrap();
    let mut append = writer.append(1, &[1, 2]).unwrap();
    assert_eq!(writer.action(&append), Action::OpenSegment { segment: 0 });
    writer.step(&mut append, Event::Failed).unwrap();
    assert_eq!(writer.action(&append), Action::Finished);
    assert_eq!(writer.blocks(), 1);
}

#[test]
fn an_interrupted_append_can_be_redone() {
    let mut files = Files::default();
    let mut writer = files.open_at(1).unwrap();
    files.append(&mut writer, 1, &stream(1, 40)).unwrap();
    files.flush(&writer);
    let mut append = writer.append(2, &stream(2, 50)).unwrap();
    assert_eq!(writer.action(&append), Action::WriteFrame);
    files.segments.get_mut(&0).unwrap().write(&append.frame()[..20]);
    writer.step(&mut append, Event::Failed).unwrap();
    assert_eq!(files.len_of(0), 41 + 20);
    let mut out = Vec::new();
    files.read(&files.store().unwrap(), 1, &mut out).unwrap();
    assert_eq!(out, stream(1, 40));

    let mut writer = files.open_at(2).unwrap();
    assert_eq!(files.len_of(0), 41);
    files.append(&mut writer, 2, &stream(2, 50)).unwrap();
    files.flush(&writer);
    let store = files.store().unwrap();
    assert_eq!(store.blocks(), 3);
    files.read(&store, 1, &mut out).unwrap();
    assert_eq!(out, stream(1, 40));
    files.read(&store, 2, &mut out).unwrap();
    assert_eq!(out, stream(2, 50));
}

#[test]
fn data_in_a_missing_segment_is_refused() {
    let entries = vec![Entry { offset: 0, len: 5 }];
    let mut files = Files::default();
    files.index = Some(write_index(&entries));
    match files.open_at(1) {
        Err(StoreError::Index { what }) => {
            assert_eq!(what, IndexFault::MissingSegment { segment: 0 });
            assert_eq!(what.describe(), "entries point into missing segment 0");
        }
        other => panic!("{other:?}"),
    }
    assert!(files.open_at(0).is_ok(), "without entries there is no data to miss");
}

#[test]
fn segments_past_the_end_are_removed_up_to_a_gap() {
    let mut files = Files::default();
    files.open_at(1).unwrap();
    for segment in [0, 1, 2, 4] {
        files.segments.insert(segment, Sparse { len: 9, parts: Vec::new() });
    }
    files.open_at(1).unwrap();
    let left: Vec<(u64, u64)> = files.segments.iter().map(|(n, s)| (*n, s.len)).collect();
    assert_eq!(left, [(0, 0), (4, 9)]);
}

#[test]
fn a_flush_puts_data_before_index() {
    let mut files = Files::default();
    let mut writer = files.open_at(1).unwrap();
    assert_eq!(writer.flush(), [FlushAction::FlushIndex, FlushAction::SyncIndex]);
    files.append(&mut writer, 1, &[1]).unwrap();
    assert_eq!(
        writer.flush(),
        [
            FlushAction::FlushSegment,
            FlushAction::SyncSegment,
            FlushAction::FlushIndex,
            FlushAction::SyncIndex,
        ]
    );
}

fn index_fault(bytes: &[u8]) -> (IndexFault, String) {
    let what = match WitnessStore::open(bytes) {
        Err(StoreError::Index { what }) => what,
        other => panic!("{other:?}"),
    };
    assert_eq!(read_index(bytes), Err(what));
    assert!(
        matches!(WitnessWriter::open(Some(bytes), 0), Err(StoreError::Index { what: w }) if w == what)
    );
    (what, what.describe())
}

#[test]
fn what_is_no_index_is_refused_in_words() {
    assert_eq!(
        index_fault(&[]),
        (IndexFault::Short { len: 0 }, "0 bytes, shorter than the header".to_string())
    );
    let good = header().to_vec();
    assert_eq!(
        index_fault(&good[..15]),
        (IndexFault::Short { len: 15 }, "15 bytes, shorter than the header".to_string())
    );
    let mut bad = good.clone();
    bad[3] = b'X';
    assert_eq!(
        index_fault(&bad),
        (IndexFault::Magic, "not a witness index (bad magic)".to_string())
    );
    let mut bad = good.clone();
    bad[4] = 2;
    assert_eq!(
        index_fault(&bad),
        (IndexFault::Version { found: 2 }, "version 2 (this code reads version 1)".to_string())
    );
    let mut bad = good.clone();
    bad[6] = 30;
    assert_eq!(
        index_fault(&bad),
        (IndexFault::SegmentBits { found: 30 }, "segment bits 30 (this code uses 31)".to_string())
    );
    let mut bad = good.clone();
    bad.extend_from_slice(&[0; 17]);
    assert_eq!(
        index_fault(&bad),
        (IndexFault::Trailing { extra: 5 }, "5 trailing bytes are not a whole entry".to_string())
    );
    let mut bad = good.clone();
    bad.extend_from_slice(&Entry { offset: 0, len: 10 }.to_bytes());
    bad.extend_from_slice(&Entry { offset: 9, len: 1 }.to_bytes());
    assert_eq!(
        index_fault(&bad),
        (IndexFault::Entry { number: 1 }, "entry 1 is out of order or oversized".to_string())
    );
    let mut bad = good.clone();
    bad.extend_from_slice(&Entry { offset: 0, len: 0x8000_0001 }.to_bytes());
    assert_eq!(index_fault(&bad).0, IndexFault::Entry { number: 0 });

    // Other header bytes play no part.
    let mut odd = good.clone();
    odd[5] = 7;
    odd[15] = 7;
    assert_eq!(WitnessStore::open(&odd).unwrap().blocks(), 0);
}

#[test]
fn an_index_reads_as_what_was_written() {
    let entries = vec![
        Entry { offset: 0, len: 0 },
        Entry { offset: 0, len: 0x1234 },
        Entry { offset: 0x0102_0304_0506, len: 7 },
    ];
    let bytes = write_index(&entries);
    assert_eq!(bytes.len(), 16 + 3 * 12);
    assert_eq!(bytes[40..52], [6, 5, 4, 3, 2, 1, 0, 0, 7, 0, 0, 0]);
    assert_eq!(read_index(&bytes).unwrap(), entries);
    assert_eq!(Entry::from_bytes(&bytes[40..52]), entries[2]);
    assert_eq!(entries[1].end(), 0x1234);
}

#[test]
fn files_have_these_names() {
    assert_eq!(index_name(), "witness.idx");
    assert_eq!(segment_name(7), "witness.0007.dat");
    assert_eq!(segment_name(42), "witness.0042.dat");
    assert_eq!(segment_name(321), "witness.0321.dat");
    assert_eq!(segment_name(9999), "witness.9999.dat");
    assert_eq!(segment_name(12345), "witness.12345.dat");
}

#[test]
fn frames_hold_their_streams() {
    let short = stream(1, 63);
    let mut raw = vec![0];
    raw.extend_from_slice(&short);
    assert_eq!(encode_frame(&short).unwrap(), raw);

    let packed = encode_frame(&[7; 64]).unwrap();
    assert_eq!(packed[0], 1);
    assert!(packed.len() <= 64);
    assert_eq!(packed[1..5], [0x28, 0xB5, 0x2F, 0xFD], "a zstd frame");
    let mut out = vec![1, 2, 3];
    decode_frame(&packed, &mut out).unwrap();
    assert_eq!(out, [7; 64]);

    // Bytes that do not compress stay as they are.
    let mut state = 1u32;
    let noise: Vec<u8> = (0..64)
        .map(|_| {
            state = state.wrapping_mul(1_664_525).wrapping_add(1_013_904_223);
            (state >> 24) as u8
        })
        .collect();
    let framed = encode_frame(&noise).unwrap();
    assert_eq!(framed[0], 0);
    assert_eq!(framed[1..], noise[..]);
}

#[test]
fn the_shorter_frame_is_chosen() {
    let stream = [9u8; 5];
    assert_eq!(choose_frame(&stream, &vec![1, 2, 3, 4]), [1, 1, 2, 3, 4]);
    assert_eq!(choose_frame(&stream, &vec![1, 2, 3, 4, 5]), [0, 9, 9, 9, 9, 9]);
}

fn corruption(frame: &[u8]) -> String {
    let entries = vec![Entry { offset: 0, len: frame.len() as u32 }];
    let store = WitnessStore::open(&write_index(&entries)).unwrap();
    let mut out = vec![1];
    match store.read(0, frame, &mut out) {
        Err(StoreError::Corrupt { block: 0, what }) => what,
        other => panic!("{other:?}"),
    }
}

#[test]
fn what_does_not_decode_is_corrupt() {
    assert_eq!(corruption(&[9, 1, 2]), "unknown frame kind 9");
    assert_eq!(corruption(&[255]), "unknown frame kind 255");
    let mut out = vec![7];
    assert!(decode_frame(&[9, 1], &mut out).is_err());
    assert!(out.is_empty());
    let what = corruption(&[1, 2, 3, 4, 5, 6]);
    assert!(what.starts_with("zstd: ") && what.len() > 6, "{what}");
    assert_eq!(decode_outcome(Err("no".to_string())), Err("zstd: no".to_string()));
    assert_eq!(decode_outcome(Ok(())), Ok(()));
}
