//! The data of one block in a store: `[kind: u8][payload]`, where kind `0` is
//! the stream as it is and kind `1` is a zstd frame of it.
use crate::text::{decimal, to_decimal};
use vstd::prelude::*;

verus! {

/// The kind of a frame that holds its stream as it is.
pub const KIND_RAW: u8 = 0;

/// The kind of a frame that holds its stream compressed.
pub const KIND_ZSTD: u8 = 1;

/// Streams shorter than this are stored as they are.
pub const COMPRESS_FROM: usize = 64;

/// The level at which streams are compressed.
pub const ZSTD_LEVEL: i32 = 1;

/// `std::io::Error`, as a value that is only handed on.
#[verifier::external_type_specification]
#[verifier::external_body]
pub struct ExIoError(std::io::Error);

/// What `zstd::stream::copy_encode` writes for `data` at `level`.
pub uninterp spec fn zstd_encoded(data: Seq<u8>, level: i32) -> Seq<u8>;

/// What `zstd::stream::copy_decode` writes for `frames`, if they are whole
/// zstd frames.
pub uninterp spec fn zstd_decoded(frames: Seq<u8>) -> Option<Seq<u8>>;

/// `zstd::stream::copy_encode`, from memory to memory: what it writes is
/// determined by the data and the level, and decodes to the data. An encoder
/// that runs out of memory fails. When it fails is not stated.
#[verifier::external_body]
fn zstd_encode(data: &[u8], level: i32) -> (packed: Result<Vec<u8>, std::io::Error>)
    requires
        1 <= level <= 19,
    ensures
        packed matches Ok(bytes) ==> {
            &&& bytes@ == zstd_encoded(data@, level)
            &&& zstd_decoded(bytes@) == Some(data@)
        },
{
    let mut bytes = Vec::new();
    zstd::stream::copy_encode(data, &mut bytes, level).map(|()| bytes)
}

/// `zstd::stream::copy_decode`, from memory to memory: what it wrote, and how
/// it ended. Where it succeeds, what it wrote is determined by the frames. An
/// error is handed on as its text; a part may have been written by then. A
/// decoder that runs out of memory fails too, so that a failure says nothing of
/// the frames.
#[verifier::external_body]
fn zstd_decode(frames: &[u8]) -> (ran: (Vec<u8>, Result<(), String>))
    ensures
        ran.1 is Ok ==> zstd_decoded(frames@) == Some(ran.0@),
{
    let mut bytes = Vec::new();
    let done = zstd::stream::copy_decode(frames, &mut bytes).map_err(|e| e.to_string());
    (bytes, done)
}

/// Whether a compression of `data` at `level` ended as `packed`: it was run,
/// and this is what it gave.
pub closed spec fn encoder_gave(
    data: Seq<u8>,
    level: i32,
    packed: Result<Vec<u8>, std::io::Error>,
) -> bool {
    exists|input: &[u8]|
        input@ == data && #[trigger] call_ensures(zstd_encode, (input, level), packed)
}

/// Whether a decompression of `frames` wrote `written` and ended as `done`: it
/// was run, and this is what it gave.
pub closed spec fn decoder_gave(
    frames: Seq<u8>,
    written: Vec<u8>,
    done: Result<(), String>,
) -> bool {
    exists|input: &[u8]|
        input@ == frames && #[trigger] call_ensures(zstd_decode, (input,), (written, done))
}

/// The frame of a stream as it is.
pub open spec fn raw_frame(stream: Seq<u8>) -> Seq<u8> {
    seq![KIND_RAW] + stream
}

/// The frame of a stream of which `packed` is the compressed form: that form,
/// unless it makes the frame longer than the stream.
pub open spec fn chosen_frame(stream: Seq<u8>, packed: Seq<u8>) -> Seq<u8> {
    if packed.len() + 1 <= stream.len() {
        seq![KIND_ZSTD] + packed
    } else {
        raw_frame(stream)
    }
}

/// The frame in which a store keeps `stream`.
pub open spec fn stored_frame(stream: Seq<u8>) -> Seq<u8> {
    if stream.len() < COMPRESS_FROM {
        raw_frame(stream)
    } else {
        chosen_frame(stream, zstd_encoded(stream, ZSTD_LEVEL))
    }
}

/// The stream that a frame holds.
pub open spec fn unframed(frame: Seq<u8>) -> Option<Seq<u8>> {
    if frame.len() == 0 {
        None
    } else if frame[0] == KIND_RAW {
        Some(frame.skip(1))
    } else if frame[0] == KIND_ZSTD {
        zstd_decoded(frame.skip(1))
    } else {
        None
    }
}

/// Picks the frame for `stream`, of which `packed` is the compressed form.
pub fn choose_frame(stream: &[u8], packed: &Vec<u8>) -> (frame: Vec<u8>)
    ensures
        frame@ == chosen_frame(stream@, packed@),
{
    let mut frame: Vec<u8> = Vec::new();
    if packed.len() < stream.len() {
        frame.push(KIND_ZSTD);
        frame.extend_from_slice(packed.as_slice());
    } else {
        frame.push(KIND_RAW);
        frame.extend_from_slice(stream);
    }
    assert(frame@ =~= chosen_frame(stream@, packed@));
    frame
}

/// Whether framing `stream` comes to `framed`. A short stream is stored as it
/// is. A longer one is compressed: the frame is chosen by what the compression
/// gave, and the framing fails where the compression failed, with its error.
pub open spec fn frames_as(stream: Seq<u8>, framed: Result<Vec<u8>, std::io::Error>) -> bool {
    if stream.len() < COMPRESS_FROM {
        framed is Ok && framed->Ok_0@ == raw_frame(stream)
    } else {
        exists|packed: Result<Vec<u8>, std::io::Error>| #[trigger]
            encoder_gave(stream, ZSTD_LEVEL, packed) && match (packed, framed) {
                (Ok(bytes), Ok(frame)) => frame@ == chosen_frame(stream, bytes@),
                (Err(e), Err(f)) => e == f,
                _ => false,
            }
    }
}

/// Frames `stream`, compressed where that pays.
///
/// Only the compression can fail, and it is tried on no stream shorter than
/// [`COMPRESS_FROM`].
pub fn encode_frame(stream: &[u8]) -> (framed: Result<Vec<u8>, std::io::Error>)
    ensures
        frames_as(stream@, framed),
        framed matches Ok(frame) ==> {
            &&& frame@ == stored_frame(stream@)
            &&& unframed(frame@) == Some(stream@)
            &&& 1 <= frame@.len() <= stream@.len() + 1
        },
{
    if stream.len() < COMPRESS_FROM {
        let mut frame: Vec<u8> = Vec::new();
        frame.push(KIND_RAW);
        frame.extend_from_slice(stream);
        assert(frame@ =~= raw_frame(stream@));
        assert(frame@.skip(1) =~= stream@);
        return Ok(frame);
    }
    let packed = zstd_encode(stream, ZSTD_LEVEL);
    let ghost gave = packed;
    assert(call_ensures(zstd_encode, (stream, ZSTD_LEVEL), gave));
    assert(encoder_gave(stream@, ZSTD_LEVEL, gave));
    match packed {
        Err(e) => Err(e),
        Ok(bytes) => {
            let frame = choose_frame(stream, &bytes);
            proof {
                law_chosen_frame_holds_the_stream(stream@, bytes@);
            }
            Ok(frame)
        },
    }
}

/// What becomes of the outcome of decompressing a payload.
pub fn decode_outcome(outcome: Result<(), String>) -> (done: Result<(), String>)
    ensures
        done is Ok <==> outcome is Ok,
        done matches Err(what) ==> what@ == "zstd: "@ + outcome->Err_0@,
{
    match outcome {
        Ok(()) => Ok(()),
        Err(e) => {
            let mut what = String::new();
            what.append("zstd: ");
            what.append(e.as_str());
            assert(what@ =~= "zstd: "@ + e@);
            Err(what)
        },
    }
}

/// Whether decoding `frame` comes to `done`, with `out` read. A raw frame gives
/// its payload. A compressed one gives what the decompression of its payload
/// wrote, and fails where that failed, with its error's text behind "zstd: ". A
/// frame of another kind fails and gives nothing.
pub open spec fn decodes_as(frame: Seq<u8>, out: Seq<u8>, done: Result<(), String>) -> bool {
    if frame[0] == KIND_RAW {
        done is Ok && out == frame.skip(1)
    } else if frame[0] == KIND_ZSTD {
        exists|written: Vec<u8>, outcome: Result<(), String>| #[trigger]
            decoder_gave(frame.skip(1), written, outcome) && out == written@ && match (
                outcome,
                done,
            ) {
                (Ok(()), Ok(())) => true,
                (Err(e), Err(what)) => what@ == "zstd: "@ + e@,
                _ => false,
            }
    } else {
        &&& done matches Err(what)
        &&& what@ == "unknown frame kind "@ + decimal(frame[0] as nat)
        &&& out == Seq::<u8>::empty()
    }
}

/// Reads the stream that `frame` holds into `out`, replacing its contents.
///
/// A frame of the raw kind never fails and one of an unknown kind always
/// does; one of the compressed kind fails where its decompression does.
pub fn decode_frame(frame: &[u8], out: &mut Vec<u8>) -> (done: Result<(), String>)
    requires
        frame@.len() > 0,
    ensures
        decodes_as(frame@, final(out)@, done),
        done is Ok ==> unframed(frame@) == Some(final(out)@),
{
    out.clear();
    let kind = frame[0];
    let payload = vstd::slice::slice_subrange(frame, 1, frame.len());
    assert(payload@ =~= frame@.skip(1));
    if kind == KIND_RAW {
        out.extend_from_slice(payload);
        assert(out@ =~= payload@);
        Ok(())
    } else if kind == KIND_ZSTD {
        let (mut written, outcome) = zstd_decode(payload);
        let ghost (all, ended) = (written, outcome);
        assert(call_ensures(zstd_decode, (payload,), (all, ended)));
        assert(decoder_gave(frame@.skip(1), all, ended));
        out.append(&mut written);
        assert(out@ =~= all@);
        decode_outcome(outcome)
    } else {
        let mut what = String::new();
        what.append("unknown frame kind ");
        what.append(to_decimal(kind as u64).as_str());
        assert(what@ =~= "unknown frame kind "@ + decimal(frame@[0] as nat));
        Err(what)
    }
}

/// Whichever frame is picked for a stream, it is at most one byte longer than
/// the stream, and holds the stream if the compressed form does.
pub proof fn law_chosen_frame_holds_the_stream(stream: Seq<u8>, packed: Seq<u8>)
    ensures
        1 <= chosen_frame(stream, packed).len() <= stream.len() + 1,
        zstd_decoded(packed) == Some(stream) ==> unframed(chosen_frame(stream, packed)) == Some(
            stream,
        ),
{
    let frame = chosen_frame(stream, packed);
    if packed.len() + 1 <= stream.len() {
        assert(frame.skip(1) =~= packed);
    } else {
        assert(frame.skip(1) =~= stream);
    }
}

/// What a stream is stored as. One of less than 64 bytes is a zero byte and the
/// stream. A longer one is a one byte and its zstd form at level one if that is
/// shorter than the stream, and else a zero byte and the stream.
pub proof fn law_stored_frames(stream: Seq<u8>, packed: Seq<u8>)
    ensures
        stream.len() < 64 ==> stored_frame(stream) == seq![0u8] + stream,
        stream.len() >= 64 && zstd_encoded(stream, 1).len() < stream.len() ==> stored_frame(stream)
            == seq![1u8] + zstd_encoded(stream, 1),
        stream.len() >= 64 && zstd_encoded(stream, 1).len() >= stream.len() ==> stored_frame(
            stream,
        ) == seq![0u8] + stream,
        packed.len() < stream.len() ==> chosen_frame(stream, packed) == seq![1u8] + packed,
        packed.len() >= stream.len() ==> chosen_frame(stream, packed) == seq![0u8] + stream,
{
}

/// What a frame holds: behind a zero byte the stream as it is, behind a one byte
/// a zstd form of it. Nothing else is a frame.
pub proof fn law_what_frames_hold(kind: u8, payload: Seq<u8>)
    ensures
        unframed(Seq::empty()) is None,
        unframed(seq![0u8] + payload) == Some(payload),
        unframed(seq![1u8] + payload) == zstd_decoded(payload),
        kind > 1 ==> unframed(seq![kind] + payload) is None,
{
    assert((seq![0u8] + payload).skip(1) =~= payload);
    assert((seq![1u8] + payload).skip(1) =~= payload);
}

/// How framing ends: a stream of less than 64 bytes is always framed; a longer
/// one is compressed as it is, at level one, and framed or refused by what that
/// gave.
pub proof fn law_how_framing_ends(stream: Seq<u8>, framed: Result<Vec<u8>, std::io::Error>)
    requires
        frames_as(stream, framed),
    ensures
        stream.len() < 64 ==> framed is Ok && framed->Ok_0@ == seq![0u8] + stream,
        stream.len() >= 64 ==> exists|packed: Result<Vec<u8>, std::io::Error>| #[trigger]
            encoder_gave(stream, 1, packed) && match (packed, framed) {
                (Ok(bytes), Ok(frame)) => frame@ == if bytes@.len() < stream.len() {
                    seq![1u8] + bytes@
                } else {
                    seq![0u8] + stream
                },
                (Err(e), Err(f)) => e == f,
                _ => false,
            },
{
    if stream.len() >= 64 {
        let packed = choose|packed: Result<Vec<u8>, std::io::Error>| #[trigger]
            encoder_gave(stream, ZSTD_LEVEL, packed) && match (packed, framed) {
                (Ok(bytes), Ok(frame)) => frame@ == chosen_frame(stream, bytes@),
                (Err(e), Err(f)) => e == f,
                _ => false,
            };
        assert(encoder_gave(stream, 1, packed));
    }
}

/// How decoding ends: what is behind a zero byte is always read, what is behind
/// a one byte is decompressed as it is and read as far as that wrote, and any
/// other kind is refused by its number.
pub proof fn law_how_decoding_ends(
    kind: u8,
    payload: Seq<u8>,
    out: Seq<u8>,
    done: Result<(), String>,
)
    requires
        decodes_as(seq![kind] + payload, out, done),
    ensures
        kind == 0 ==> done is Ok && out == payload,
        kind == 1 ==> exists|written: Vec<u8>, outcome: Result<(), String>| #[trigger]
            decoder_gave(payload, written, outcome) && out == written@ && (done is Ok <==> outcome
                is Ok) && (done matches Err(what) ==> what@ == "zstd: "@ + outcome->Err_0@),
        kind > 1 ==> done is Err && done->Err_0@ == "unknown frame kind "@ + decimal(kind as nat)
            && out == Seq::<u8>::empty(),
{
    let frame = seq![kind] + payload;
    assert(frame.skip(1) =~= payload);
    if kind == 1 {
        let (written, outcome) = choose|written: Vec<u8>, outcome: Result<(), String>| #[trigger]
            decoder_gave(frame.skip(1), written, outcome) && out == written@ && match (
                outcome,
                done,
            ) {
                (Ok(()), Ok(())) => true,
                (Err(e), Err(what)) => what@ == "zstd: "@ + e@,
                _ => false,
            };
        assert(decoder_gave(payload, written, outcome));
    }
}

} // verus!
