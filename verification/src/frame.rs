//! The binary frames of the worker protocol.
//!
//! A frame is a header of nine bytes, `u8 type, u32 request_id, u32 payload_len`
//! in little-endian order, followed by the payload.

use vstd::prelude::*;

verus! {

/// The bytes of a frame header.
pub const FRAME_HEADER_BYTES: usize = 9;

/// Input: speak the payload, which is UTF-8 text.
pub const WORKER_INPUT_SPEAK: u8 = 1;

/// Input: cancel the request.
pub const WORKER_INPUT_CANCEL: u8 = 2;

/// Input: stop the worker.
pub const WORKER_INPUT_SHUTDOWN: u8 = 3;

/// Output: the worker is ready.
pub const WORKER_OUTPUT_READY: u8 = 1;

/// Output: audio begins; the payload is the sample rate.
pub const WORKER_OUTPUT_AUDIO_START: u8 = 2;

/// Output: a block of audio, little-endian 16-bit mono.
pub const WORKER_OUTPUT_AUDIO_CHUNK: u8 = 3;

/// Output: the request is done.
pub const WORKER_OUTPUT_AUDIO_DONE: u8 = 4;

/// Output: the request failed; the payload is the message.
pub const WORKER_OUTPUT_ERROR: u8 = 5;

/// One frame.
#[derive(Debug)]
pub struct Frame {
    pub frame_type: u8,
    pub request_id: u32,
    pub payload: Vec<u8>,
}

impl Frame {
    /// The bytes that stand for the frame.
    pub open spec fn bytes(self) -> Seq<u8> {
        frame_bytes(self.frame_type, self.request_id, self.payload@)
    }
}

/// A payload whose length does not fit in the header.
#[derive(Clone, Copy, Debug, PartialEq, Eq, Structural)]
pub struct FrameTooLong;

/// Four bytes, least significant first.
pub open spec fn le4(n: int) -> Seq<u8> {
    seq![
        (n % 256) as u8,
        (n / 0x100 % 256) as u8,
        (n / 0x1_0000 % 256) as u8,
        (n / 0x100_0000 % 256) as u8,
    ]
}

/// The number that four bytes, least significant first, stand for.
pub open spec fn from_le4(b: Seq<u8>) -> int {
    b[0] + 0x100 * b[1] + 0x1_0000 * b[2] + 0x100_0000 * b[3]
}

/// The bytes of a frame.
pub open spec fn frame_bytes(frame_type: u8, request_id: u32, payload: Seq<u8>) -> Seq<u8> {
    seq![frame_type] + le4(request_id as int) + le4(payload.len() as int) + payload
}

/// The payload length that a header announces.
pub open spec fn announced_len(bytes: Seq<u8>) -> int {
    from_le4(bytes.subrange(5, 9))
}

/// Whether `bytes` begins with a whole frame.
pub open spec fn has_frame(bytes: Seq<u8>) -> bool {
    &&& bytes.len() >= FRAME_HEADER_BYTES
    &&& bytes.len() >= FRAME_HEADER_BYTES + announced_len(bytes)
}

/// Whether `frame` is the frame that `bytes` begins with.
pub open spec fn frame_at(bytes: Seq<u8>, frame: Frame) -> bool {
    &&& frame.frame_type == bytes[0]
    &&& frame.request_id == from_le4(bytes.subrange(1, 5))
    &&& frame.payload@ == bytes.subrange(9, 9 + announced_len(bytes))
}

/// Four bytes read back as the number that was written.
pub proof fn le4_roundtrip(n: int)
    requires
        0 <= n <= u32::MAX,
    ensures
        from_le4(le4(n)) == n,
{
}

/// The four bytes of the number that four bytes stand for.
pub proof fn from_le4_roundtrip(b: Seq<u8>)
    requires
        b.len() == 4,
    ensures
        0 <= from_le4(b) <= u32::MAX,
        le4(from_le4(b)) == b,
{
    let n = from_le4(b);
    assert(n / 0x100 == b[1] + 0x100 * b[2] + 0x1_0000 * b[3]);
    assert(n / 0x1_0000 == b[2] + 0x100 * b[3]);
    assert(n / 0x100_0000 == b[3]);
    assert(le4(n) =~= b);
}

/// What is written is what is read: bytes that begin with a written frame begin
/// with that frame, whatever follows.
pub proof fn written_frame_is_read(frame: Frame, rest: Seq<u8>)
    requires
        frame.payload@.len() <= u32::MAX,
    ensures
        has_frame(frame.bytes() + rest),
        announced_len(frame.bytes() + rest) == frame.payload@.len(),
        frame_at(frame.bytes() + rest, frame),
{
    let bytes = frame.bytes() + rest;
    assert(bytes.subrange(1, 5) =~= le4(frame.request_id as int));
    assert(bytes.subrange(5, 9) =~= le4(frame.payload@.len() as int));
    le4_roundtrip(frame.request_id as int);
    le4_roundtrip(frame.payload@.len() as int);
    assert(bytes.subrange(9, 9 + announced_len(bytes)) =~= frame.payload@);
}

/// What is read is what was written: the frame that bytes begin with has exactly
/// the bytes that it was read from.
pub proof fn read_frame_is_written(bytes: Seq<u8>, frame: Frame)
    requires
        has_frame(bytes),
        frame_at(bytes, frame),
    ensures
        frame.bytes() == bytes.take(9 + announced_len(bytes)),
{
    from_le4_roundtrip(bytes.subrange(1, 5));
    from_le4_roundtrip(bytes.subrange(5, 9));
    assert(frame.bytes() =~= bytes.take(9 + announced_len(bytes)));
}

/// A frame that has not arrived whole is not read: no proper part of a frame's
/// bytes, from the front, begins with a frame.
pub proof fn partial_frame_is_not_read(frame: Frame, k: int)
    requires
        frame.payload@.len() <= u32::MAX,
        0 <= k < frame.bytes().len(),
    ensures
        !has_frame(frame.bytes().take(k)),
{
    let bytes = frame.bytes();
    if k >= 9 {
        assert(bytes.take(k).subrange(5, 9) =~= le4(frame.payload@.len() as int));
        le4_roundtrip(frame.payload@.len() as int);
    }
}

/// The bytes of frames that are written one after the other.
pub open spec fn wire(frames: Seq<Frame>) -> Seq<u8>
    decreases frames.len(),
{
    if frames.len() == 0 {
        Seq::empty()
    } else {
        frames[0].bytes() + wire(frames.drop_first())
    }
}

/// Frames that are written one after the other are read in that order: behind the
/// first `k` of them stands the next.
pub proof fn frames_are_read_in_order(frames: Seq<Frame>, k: int)
    requires
        forall|i: int| 0 <= i < frames.len() ==> (#[trigger] frames[i]).payload@.len() <= u32::MAX,
        0 <= k < frames.len(),
    ensures
        wire(frames.take(k)).len() <= wire(frames).len(),
        has_frame(wire(frames).skip(wire(frames.take(k)).len() as int)),
        frame_at(wire(frames).skip(wire(frames.take(k)).len() as int), frames[k]),
    decreases frames.len(),
{
    let all = wire(frames);
    let rest = frames.drop_first();
    if k == 0 {
        assert(frames.take(0) =~= Seq::empty());
        assert(all.skip(0) =~= all);
        written_frame_is_read(frames[0], wire(rest));
    } else {
        assert forall|i: int| 0 <= i < rest.len() implies (#[trigger] rest[i]).payload@.len()
            <= u32::MAX by {
            assert(rest[i] == frames[i + 1]);
        }
        frames_are_read_in_order(rest, k - 1);
        assert(frames.take(k).drop_first() =~= rest.take(k - 1));
        assert(frames.take(k)[0] == frames[0]);
        let n = wire(rest.take(k - 1)).len() as int;
        assert(all.skip(frames[0].bytes().len() + n) =~= wire(rest).skip(n));
    }
}

fn push_le4(out: &mut Vec<u8>, n: u32)
    ensures
        final(out)@ == old(out)@ + le4(n as int),
{
    out.push((n % 256) as u8);
    out.push((n / 0x100 % 256) as u8);
    out.push((n / 0x1_0000 % 256) as u8);
    out.push((n / 0x100_0000 % 256) as u8);
    assert(out@ =~= old(out)@ + le4(n as int));
}

/// Four bytes, least significant first.
pub fn le4_bytes(n: u32) -> (r: Vec<u8>)
    ensures
        r@ == le4(n as int),
{
    let mut r: Vec<u8> = Vec::new();
    push_le4(&mut r, n);
    assert(r@ =~= le4(n as int));
    r
}

fn read_le4(bytes: &[u8], at: usize) -> (r: u32)
    requires
        at + 4 <= bytes@.len(),
    ensures
        r == from_le4(bytes@.subrange(at as int, at + 4)),
{
    bytes[at] as u32 + 0x100 * bytes[at + 1] as u32 + 0x1_0000 * bytes[at + 2] as u32
        + 0x100_0000 * bytes[at + 3] as u32
}

/// The bytes of a frame; fails when the payload's length does not fit in the
/// header.
pub fn write_frame(frame_type: u8, request_id: u32, payload: &[u8]) -> (r: Result<
    Vec<u8>,
    FrameTooLong,
>)
    ensures
        r is Ok <==> payload@.len() <= u32::MAX,
        r matches Ok(bytes) ==> bytes@ == frame_bytes(frame_type, request_id, payload@),
{
    if payload.len() as u64 > u32::MAX as u64 {
        return Err(FrameTooLong);
    }
    let mut out: Vec<u8> = Vec::new();
    out.push(frame_type);
    push_le4(&mut out, request_id);
    push_le4(&mut out, payload.len() as u32);
    out.extend_from_slice(payload);
    assert(out@ =~= frame_bytes(frame_type, request_id, payload@));
    Ok(out)
}

/// The frame that `input` begins with and the bytes that it takes, or nothing
/// when the input ends before the frame does.
pub fn read_frame(input: &[u8]) -> (r: Option<(Frame, usize)>)
    ensures
        r is Some <==> has_frame(input@),
        r matches Some((frame, n)) ==> frame_at(input@, frame) && n == 9 + announced_len(input@),
{
    if input.len() < FRAME_HEADER_BYTES {
        return None;
    }
    let frame_type: u8 = input[0];
    let request_id: u32 = read_le4(input, 1);
    let payload_len: u32 = read_le4(input, 5);
    if ((input.len() - FRAME_HEADER_BYTES) as u64) < payload_len as u64 {
        return None;
    }
    let end: usize = FRAME_HEADER_BYTES + payload_len as usize;
    let payload: Vec<u8> = vstd::slice::slice_to_vec(
        vstd::slice::slice_subrange(input, FRAME_HEADER_BYTES, end),
    );
    Some((Frame { frame_type, request_id, payload }, end))
}

/// Puts frames together from the pieces in which a stream delivers them.
///
/// The reader never asks for more than the frame at hand takes, so nothing that
/// belongs to a later frame is swallowed.
#[derive(Debug)]
pub struct FrameReader {
    pending: Vec<u8>,
}

impl View for FrameReader {
    type V = Seq<u8>;

    /// The bytes of a frame that have arrived so far.
    closed spec fn view(&self) -> Seq<u8> {
        self.pending@
    }
}

impl FrameReader {
    /// The bytes that have arrived are not a whole frame yet.
    pub open spec fn wf(self) -> bool {
        !has_frame(self@)
    }

    /// How many more bytes the header, or the payload once the header is there,
    /// takes.
    pub open spec fn missing(self) -> int {
        if self@.len() < FRAME_HEADER_BYTES {
            FRAME_HEADER_BYTES - self@.len()
        } else {
            FRAME_HEADER_BYTES + announced_len(self@) - self@.len()
        }
    }

    /// A reader at the beginning of a frame.
    pub fn new() -> (r: Self)
        ensures
            r.wf(),
            r@ == Seq::<u8>::empty(),
    {
        FrameReader { pending: Vec::new() }
    }

    /// How many bytes to read next, at most.
    pub fn wanted(&self) -> (r: u64)
        requires
            self.wf(),
        ensures
            r == self.missing(),
            r > 0,
    {
        if self.pending.len() < FRAME_HEADER_BYTES {
            (FRAME_HEADER_BYTES - self.pending.len()) as u64
        } else {
            let payload_len: u32 = read_le4(self.pending.as_slice(), 5);
            9 + payload_len as u64 - self.pending.len() as u64
        }
    }

    /// Takes bytes that have arrived and hands out the frame that they complete.
    pub fn feed(&mut self, bytes: &[u8]) -> (r: Option<Frame>)
        requires
            old(self).wf(),
            bytes@.len() <= old(self).missing(),
        ensures
            final(self).wf(),
            ({
                let all = old(self)@ + bytes@;
                if has_frame(all) {
                    &&& r matches Some(frame)
                    &&& frame_at(all, frame)
                    &&& frame.bytes() == all
                    &&& final(self)@ == Seq::<u8>::empty()
                } else {
                    &&& r is None
                    &&& final(self)@ == all
                }
            }),
    {
        let ghost before = self@;
        let mut all: Vec<u8> = Vec::new();
        std::mem::swap(&mut all, &mut self.pending);
        all.extend_from_slice(bytes);
        assert(all@ =~= before + bytes@);
        match read_frame(all.as_slice()) {
            Some((frame, n)) => {
                proof {
                    if before.len() >= 9 {
                        assert(all@.subrange(5, 9) =~= before.subrange(5, 9));
                    } else {
                        from_le4_roundtrip(all@.subrange(5, 9));
                    }
                    read_frame_is_written(all@, frame);
                    assert(all@.take(all@.len() as int) =~= all@);
                }
                Some(frame)
            },
            None => {
                self.pending = all;
                None
            },
        }
    }
}

/// The frame that stands for the end of input.
pub fn shutdown_frame() -> (r: Frame)
    ensures
        r.frame_type == WORKER_INPUT_SHUTDOWN,
        r.request_id == 0,
        r.payload@ == Seq::<u8>::empty(),
{
    Frame { frame_type: WORKER_INPUT_SHUTDOWN, request_id: 0, payload: Vec::new() }
}

/// How a frame is laid out: a byte for the type; four bytes each, least significant
/// first, for the request and for the length of the payload; then the payload.
pub proof fn frames_have_nine_bytes_of_header(
    frame_type: u8,
    request_id: u32,
    payload: Seq<u8>,
    i: int,
)
    requires
        payload.len() <= u32::MAX,
        0 <= i < payload.len(),
    ensures
        ({
            let b = frame_bytes(frame_type, request_id, payload);
            &&& b.len() == 9 + payload.len()
            &&& b[0] == frame_type
            &&& b[1] + 256 * b[2] + 65536 * b[3] + 16777216 * b[4] == request_id
            &&& b[5] + 256 * b[6] + 65536 * b[7] + 16777216 * b[8] == payload.len()
            &&& b[9 + i] == payload[i]
        }),
{
    let n = request_id as int;
    let m = payload.len() as int;
    le4_roundtrip(n);
    le4_roundtrip(m);
    let b = frame_bytes(frame_type, request_id, payload);
    assert(b[1] == le4(n)[0] && b[2] == le4(n)[1] && b[3] == le4(n)[2] && b[4] == le4(n)[3]);
    assert(b[5] == le4(m)[0] && b[6] == le4(m)[1] && b[7] == le4(m)[2] && b[8] == le4(m)[3]);
}

/// A frame is read from its layout: the type, the request and the payload are where
/// they were written, and a frame is there as soon as all of its bytes are.
pub proof fn frames_are_read_by_their_layout(bytes: Seq<u8>, frame: Frame)
    requires
        bytes.len() >= 9,
    ensures
        ({
            let n = bytes[5] + 256 * bytes[6] + 65536 * bytes[7] + 16777216 * bytes[8];
            &&& has_frame(bytes) <==> bytes.len() >= 9 + n
            &&& has_frame(bytes) && frame_at(bytes, frame) ==> {
                &&& frame.frame_type == bytes[0]
                &&& frame.request_id == bytes[1] + 256 * bytes[2] + 65536 * bytes[3] + 16777216
                    * bytes[4]
                &&& frame.payload@.len() == n
                &&& forall|i: int| 0 <= i < n ==> #[trigger] frame.payload@[i] == bytes[9 + i]
            }
        }),
{
}

/// What a reader still wants: the rest of nine bytes, and then the rest of as many as
/// these announce.
pub proof fn readers_want_the_rest(reader: FrameReader)
    ensures
        reader@.len() < 9 ==> reader.missing() == 9 - reader@.len(),
        reader@.len() >= 9 ==> reader.missing() == 9 + reader@[5] + 256 * reader@[6] + 65536
            * reader@[7] + 16777216 * reader@[8] - reader@.len(),
{
}

} // verus!
