//! The receiving half of the compression layer. It is a state machine: it
//! says what it needs next from the connection (a header, some payload
//! bytes) and the caller, which owns the connection, supplies it. Decoded
//! bytes come out of `read`; `finish_step` skips what is left of a message.
use vstd::prelude::*;
use vstd::slice::slice_subrange;
use crate::frame::{
    Frame, Header, HEADER_LEN, frames_bytes, frames_payload, is_message, framing_round_trip,
    lemma_frames_push, lemma_parse_extend, parse_message,
};
use crate::compressor::{CHUNK_SIZE, CompressorView, StreamError};
use crate::zlib::{
    Inflater, Progress, saturating, lemma_saturating_assoc, inflated, is_prefix, inflate_new, inflate_step,
    inflate_total_in, inflate_total_out, micros_since, add_micros,
};

verus! {

/// What a read produced, or what it needs before it can go on.
#[derive(Debug, Clone, Copy, PartialEq, Eq, Structural)]
pub enum ReadStep {
    /// This many decoded bytes were written at the front of the buffer.
    Produced(usize),
    /// The next frame header is needed: `HEADER_LEN` bytes.
    NeedHeader,
    /// Payload bytes of the current frame are needed: at least one and at
    /// most this many.
    NeedPayload(usize),
    /// The logical message is complete.
    EndOfMessage,
}

pub struct DecompressorView {
    /// The current frame's header, its length counting the payload bytes
    /// still to be supplied.
    pub header: Header,
    /// Supplied payload bytes not yet consumed.
    pub window: Seq<u8>,
    /// All payload bytes supplied.
    pub received: Seq<u8>,
    /// Payload bytes consumed, by the primitive or by skipping, in order.
    pub consumed: Seq<u8>,
    /// Payload bytes the primitive has taken.
    pub fed: Seq<u8>,
    /// Bytes the primitive has made.
    pub out: Seq<u8>,
    /// The primitive reported an error; the message cannot be read on.
    pub failed: bool,
    /// All bytes taken from the connection: headers and payloads.
    pub raw: Seq<u8>,
    /// The frames whose header has been taken, each with the payload
    /// taken so far.
    pub frames: Seq<Frame>,
    /// The primitive reported the end of the compressed stream.
    pub stream_ended: bool,
    pub bytes_in: nat,
    pub bytes_out: nat,
    /// Microseconds spent inside the primitive.
    pub elapsed_us: nat,
}

impl DecompressorView {
    pub open spec fn wants_header(self) -> bool {
        &&& self.window.len() == 0
        &&& self.header.length == 0
        &&& !self.header.finished
    }

    pub open spec fn wants_payload(self) -> bool {
        &&& self.window.len() == 0
        &&& self.header.length > 0
    }

    /// How many payload bytes may be supplied next.
    pub open spec fn payload_room(self) -> nat {
        if self.header.length < CHUNK_SIZE { self.header.length as nat } else { CHUNK_SIZE as nat }
    }

    /// The final frame has been supplied in full and nothing waits.
    pub open spec fn drained(self) -> bool {
        &&& self.window.len() == 0
        &&& self.header.length == 0
        &&& self.header.finished
    }
}

pub struct Decompressor {
    decomp: Inflater,
    failed: bool,
    header: Header,
    window: Vec<u8>,
    start: usize,
    stream_ended: bool,
    bytes_in: u64,
    bytes_out: u64,
    elapsed_us: u64,
    received: Ghost<Seq<u8>>,
    consumed: Ghost<Seq<u8>>,
    raw: Ghost<Seq<u8>>,
    frames: Ghost<Seq<Frame>>,
}

impl View for Decompressor {
    type V = DecompressorView;

    closed spec fn view(&self) -> DecompressorView {
        DecompressorView {
            header: self.header,
            window: self.window@.subrange(self.start as int, self.window@.len() as int),
            received: self.received@,
            consumed: self.consumed@,
            fed: self.decomp.fed(),
            out: self.decomp.out(),
            failed: self.failed,
            raw: self.raw@,
            frames: self.frames@,
            stream_ended: self.stream_ended,
            bytes_in: self.bytes_in as nat,
            bytes_out: self.bytes_out as nat,
            elapsed_us: self.elapsed_us as nat,
        }
    }
}

impl Decompressor {
    /// The window fits a chunk; every payload byte supplied has been
    /// consumed, in order, or still waits in the window; the bytes taken are
    /// those of the frames seen, all of them complete and not final but the
    /// last, which the current header continues.
    pub closed spec fn wf(&self) -> bool {
        let fs = self.frames@;
        &&& self.start <= self.window@.len() <= CHUNK_SIZE
        &&& self.raw@ == frames_bytes(fs)
        &&& self.received@ == frames_payload(fs)
        &&& fs.len() == 0 ==> self.header == Header { length: 0, finished: false }
        &&& fs.len() > 0 ==> self.header.finished == fs.last().header.finished
            && fs.last().payload.len() + self.header.length == fs.last().header.length
        &&& forall|i: int| 0 <= i < fs.len() - 1 ==> (#[trigger] fs[i]).complete() && !fs[i].header.finished
        &&& self.received@ == self.consumed@ + self.window@.subrange(
            self.start as int,
            self.window@.len() as int,
        )
        &&& self.stream_ended == self.decomp.ended()
        &&& self.failed == self.decomp.failed()
        &&& is_prefix(self.decomp.out(), inflated(self.decomp.fed()))
        &&& self.stream_ended ==> self.decomp.out() == inflated(self.decomp.fed())
            && forall|more: Seq<u8>| #[trigger] inflated(self.decomp.fed() + more) == inflated(self.decomp.fed())
    }

    /// A decompressor positioned at the first header of a message.
    pub fn new() -> (r: Decompressor)
        ensures
            r.wf(),
            r@.wants_header(),
            r@.received == Seq::<u8>::empty(),
            r@.consumed == Seq::<u8>::empty(),
            r@.fed == Seq::<u8>::empty(),
            r@.out == Seq::<u8>::empty(),
            !r@.failed,
            r@.raw == Seq::<u8>::empty(),
            r@.frames == Seq::<Frame>::empty(),
            !r@.stream_ended,
            r@.bytes_in == 0,
            r@.bytes_out == 0,
            r@.elapsed_us == 0,
    {
        let r = Decompressor {
            decomp: inflate_new(),
            failed: false,
            header: Header { length: 0, finished: false },
            window: Vec::new(),
            start: 0,
            stream_ended: false,
            bytes_in: 0,
            bytes_out: 0,
            elapsed_us: 0,
            received: Ghost(Seq::empty()),
            consumed: Ghost(Seq::empty()),
            raw: Ghost(Seq::empty()),
            frames: Ghost(Seq::empty()),
        };
        assert(r@.window =~= Seq::<u8>::empty());
        assert(inflated(Seq::<u8>::empty()).subrange(0, 0) =~= Seq::<u8>::empty());
        r
    }

    /// Compressed bytes taken by the primitive so far.
    pub fn total_in(&self) -> (r: u64)
        ensures
            r == self@.bytes_in,
    {
        self.bytes_in
    }

    /// Decoded bytes produced so far.
    pub fn total_out(&self) -> (r: u64)
        ensures
            r == self@.bytes_out,
    {
        self.bytes_out
    }

    /// Microseconds spent inside the primitive, saturating at `u32::MAX`.
    pub fn elapsed(&self) -> (r: u32)
        ensures
            r == (if self@.elapsed_us > u32::MAX { u32::MAX } else { self@.elapsed_us as u32 }),
    {
        if self.elapsed_us > u32::MAX as u64 {
            u32::MAX
        } else {
            self.elapsed_us as u32
        }
    }

    /// Takes the next frame header; a flag byte other than 0 or 1 is refused.
    pub fn supply_header(&mut self, bytes: [u8; 5]) -> (r: Result<(), StreamError>)
        requires
            old(self).wf(),
            old(self)@.wants_header(),
        ensures
            final(self).wf(),
            bytes[4] > 1 ==> r == Err::<(), StreamError>(StreamError::BadHeader(bytes[4])) && final(self)@ == old(self)@,
            bytes[4] <= 1 ==> r is Ok && final(self)@.header.spec_bytes() == bytes@
                && final(self)@ == (DecompressorView {
                    raw: old(self)@.raw + bytes@,
                    header: final(self)@.header,
                    frames: old(self)@.frames.push(Frame { header: final(self)@.header, payload: Seq::empty() }),
                    ..old(self)@
                }),
    {
        match Header::from_bytes(bytes) {
            Ok(h) => {
                let ghost f = Frame { header: h, payload: Seq::empty() };
                proof {
                    lemma_frames_push(self.frames@, f);
                    assert(f.bytes() =~= bytes@);
                    assert(frames_payload(self.frames@) + f.payload =~= frames_payload(self.frames@));
                    if self.frames@.len() > 0 {
                        assert(self.frames@.last().complete());
                    }
                }
                self.raw = Ghost(self.raw@ + bytes@);
                self.frames = Ghost(self.frames@.push(f));
                self.header = h;
                proof {
                    assert forall|i: int| 0 <= i < self.frames@.len() - 1 implies (#[trigger] self.frames@[i]).complete()
                        && !self.frames@[i].header.finished by {
                        if i < self.frames@.len() - 2 {
                            assert(self.frames@[i] == old(self).frames@[i]);
                        }
                    }
                }
                Ok(())
            },
            Err(_) => Err(StreamError::BadHeader(bytes[4])),
        }
    }

    /// Takes payload bytes of the current frame into the window.
    pub fn supply_payload(&mut self, bytes: Vec<u8>)
        requires
            old(self).wf(),
            old(self)@.wants_payload(),
            0 < bytes@.len() <= old(self)@.payload_room(),
        ensures
            final(self).wf(),
            final(self)@ == (DecompressorView {
                header: Header { length: (old(self)@.header.length - bytes@.len()) as u32, ..old(self)@.header },
                window: bytes@,
                received: old(self)@.received + bytes@,
                raw: old(self)@.raw + bytes@,
                frames: old(self)@.frames.update(
                    old(self)@.frames.len() - 1,
                    Frame { payload: old(self)@.frames.last().payload + bytes@, ..old(self)@.frames.last() },
                ),
                ..old(self)@
            }),
    {
        let n = bytes.len();
        let ghost fs = self.frames@;
        let ghost last = fs.last();
        let ghost grown = Frame { payload: last.payload + bytes@, ..last };
        proof {
            assert(fs.len() > 0);
            let init = fs.drop_last();
            assert(fs =~= init.push(last));
            assert(fs.update(fs.len() - 1, grown) =~= init.push(grown));
            lemma_frames_push(init, last);
            lemma_frames_push(init, grown);
            assert(grown.bytes() =~= last.bytes() + bytes@);
        }
        self.frames = Ghost(fs.update(fs.len() - 1, grown));
        proof {
            assert forall|i: int| 0 <= i < self.frames@.len() - 1 implies (#[trigger] self.frames@[i]).complete()
                && !self.frames@[i].header.finished by {
                assert(self.frames@[i] == fs[i]);
            }
        }
        self.received = Ghost(self.received@ + bytes@);
        self.raw = Ghost(self.raw@ + bytes@);
        proof {
            assert(self.window@.subrange(self.start as int, self.window@.len() as int) =~= Seq::<u8>::empty());
            assert(self.consumed@ =~= self.consumed@ + Seq::<u8>::empty());
        }
        self.window = bytes;
        self.start = 0;
        self.header.length = self.header.length - n as u32;
        assert(self.window@.subrange(0, self.window@.len() as int) =~= self.window@);
        proof {
            let init = fs.drop_last();
            assert(self.frames@ =~= init.push(grown));
            lemma_frames_push(init, last);
            lemma_frames_push(init, grown);
            assert(fs =~= init.push(last));
            assert(self.raw@ =~= frames_bytes(init) + grown.bytes());
            assert(self.received@ =~= frames_payload(init) + grown.payload);
            assert(self.frames@.last() == grown);
            assert(self.header.finished == grown.header.finished);
            assert(grown.payload.len() + self.header.length == grown.header.length);
        }
    }

    /// One call of the primitive on the unread window (or on nothing); the
    /// bytes it takes leave the window. Returns (bytes taken, bytes made).
    /// It refuses to run when a counter of the stream could pass `u64::MAX`.
    fn run(&mut self, empty_input: bool, buf: &mut [u8]) -> (r: Result<(usize, usize), StreamError>)
        requires
            old(self).wf(),
            old(buf)@.len() > 0,
            !old(self).stream_ended,
            !old(self).failed,
        ensures
            final(self).wf(),
            final(buf)@.len() == old(buf)@.len(),
            final(self).window@ == old(self).window@,
            old(self).start <= final(self).start,
            empty_input ==> final(self).start == old(self).start,
            final(self).frames@ == old(self).frames@,
            final(self).raw@ == old(self).raw@,
            final(self).received@ == old(self).received@,
            final(self).header == old(self).header,
            final(self)@.consumed == old(self)@.consumed + old(self).window@.subrange(old(self).start as int, final(self).start as int),
            final(self)@.fed == old(self)@.fed + old(self).window@.subrange(old(self).start as int, final(self).start as int),
            old(self)@.out.len() <= final(self)@.out.len() <= old(self)@.out.len() + old(buf)@.len(),
            final(self)@.out == old(self)@.out + final(buf)@.subrange(0, final(self)@.out.len() - old(self)@.out.len()),
            final(self)@.bytes_in == saturating(old(self)@.bytes_in, (final(self).start - old(self).start) as nat),
            final(self)@.bytes_out == saturating(old(self)@.bytes_out, (final(self)@.out.len() - old(self)@.out.len()) as nat),
            r matches Ok((taken, made)) ==> taken == final(self).start - old(self).start
                && made == final(self)@.out.len() - old(self)@.out.len() && !final(self).failed,
            r is Err ==> (r == Err::<(usize, usize), StreamError>(StreamError::Primitive) && final(self).failed)
                || (r == Err::<(usize, usize), StreamError>(StreamError::Counters) && final(self)@ == old(self)@
                && (old(self)@.fed.len() + CHUNK_SIZE > u64::MAX || old(self)@.out.len() + old(buf)@.len() > u64::MAX)),
            !empty_input && old(self).start < old(self).window@.len() ==> r is Err || final(self).stream_ended
                || final(self).start > old(self).start || final(self)@.out.len() > old(self)@.out.len(),
    {
        let before_in = inflate_total_in(&self.decomp);
        let before_out = inflate_total_out(&self.decomp);
        let avail: usize = if empty_input { 0 } else { self.window.len() - self.start };
        if before_in > u64::MAX - avail as u64 || before_out > u64::MAX - buf.len() as u64 {
            proof {
                assert(old(self).window@.subrange(self.start as int, self.start as int) =~= Seq::<u8>::empty());
                assert(self@.consumed =~= self@.consumed + Seq::<u8>::empty());
                assert(self@.fed =~= self@.fed + Seq::<u8>::empty());
                assert(self@.out =~= self@.out + buf@.subrange(0, 0));
            }
            return Err(StreamError::Counters);
        }
        let input = slice_subrange(self.window.as_slice(), self.start, self.start + avail);
        let ghost fed0 = self.decomp.fed();
        let start = std::time::Instant::now();
        let status = inflate_step(&mut self.decomp, input, buf);
        self.elapsed_us = add_micros(self.elapsed_us, micros_since(&start));
        let after_in = inflate_total_in(&self.decomp);
        let after_out = inflate_total_out(&self.decomp);
        let taken = (after_in - before_in) as usize;
        let made = (after_out - before_out) as usize;
        let ghost piece = self.window@.subrange(self.start as int, self.start + taken);
        proof {
            assert(input@.subrange(0, taken as int) =~= piece);
            assert(self.window@.subrange(self.start as int, self.window@.len() as int) =~= piece + self.window@.subrange(
                self.start + taken, self.window@.len() as int));
        }
        self.start = self.start + taken;
        self.consumed = Ghost(self.consumed@ + piece);
        self.bytes_in = if taken as u64 > u64::MAX - self.bytes_in { u64::MAX } else { self.bytes_in + taken as u64 };
        self.bytes_out = if made as u64 > u64::MAX - self.bytes_out { u64::MAX } else { self.bytes_out + made as u64 };
        proof {
            assert(self.received@ =~= self.consumed@ + self.window@.subrange(self.start as int, self.window@.len() as int));
        }
        match status {
            Ok(s) => {
                if s == Progress::BufError && avail > 0 {
                    self.failed = true;
                    return Err(StreamError::Primitive);
                }
                self.stream_ended = s == Progress::StreamEnd;
                Ok((taken, made))
            },
            Err(_) => {
                self.failed = true;
                Err(StreamError::Primitive)
            },
        }
    }

    /// Decodes into `buf` from the unread window, asking for the next
    /// header or payload bytes once the window is used up. After the final
    /// frame it drains what the primitive still holds, and reports the end
    /// of the message once the compressed stream has ended. It fails only
    /// when the primitive rejects the data, when the final frame has been
    /// taken in full and the stream has not ended, or when a counter of the
    /// stream would pass `u64::MAX`.
    pub fn read(&mut self, buf: &mut [u8]) -> (r: Result<ReadStep, StreamError>)
        requires
            old(self).wf(),
            old(buf)@.len() > 0,
        ensures
            final(self).wf(),
            final(buf)@.len() == old(buf)@.len(),
            final(self)@.header == old(self)@.header,
            final(self)@.received == old(self)@.received,
            final(self)@.raw == old(self)@.raw,
            final(self)@.frames == old(self)@.frames,
            final(self)@.consumed + final(self)@.window == old(self)@.consumed + old(self)@.window,
            final(self)@.consumed.len() >= old(self)@.consumed.len(),
            final(self)@.fed == old(self)@.fed + final(self)@.consumed.skip(old(self)@.consumed.len() as int),
            final(self)@.out.len() >= old(self)@.out.len(),
            is_prefix(final(self)@.out, inflated(final(self)@.fed)),
            final(self)@.bytes_in == saturating(old(self)@.bytes_in, (final(self)@.fed.len() - old(self)@.fed.len()) as nat),
            final(self)@.bytes_out == saturating(old(self)@.bytes_out, (final(self)@.out.len() - old(self)@.out.len()) as nat),
            old(self)@.failed ==> r == Err::<ReadStep, StreamError>(StreamError::Primitive),
            !old(self)@.failed && old(self)@.stream_ended ==> r == Ok::<ReadStep, StreamError>(ReadStep::EndOfMessage),
            !old(self)@.failed && !old(self)@.stream_ended && old(self)@.wants_header()
                ==> r == Ok::<ReadStep, StreamError>(ReadStep::NeedHeader),
            !old(self)@.failed && !old(self)@.stream_ended && old(self)@.wants_payload() ==> r == Ok::<ReadStep,
                StreamError>(ReadStep::NeedPayload(old(self)@.payload_room() as usize)),
            r matches Ok(ReadStep::Produced(n)) ==> 0 < n <= old(buf)@.len()
                && final(self)@.out == old(self)@.out + final(buf)@.subrange(0, n as int),
            r matches Ok(step) ==> !(step is Produced) ==> final(self)@.out == old(self)@.out,
            r == Ok::<ReadStep, StreamError>(ReadStep::NeedHeader) ==> final(self)@.wants_header(),
            r matches Ok(ReadStep::NeedPayload(n)) ==> final(self)@.wants_payload() && n == final(self)@.payload_room(),
            r == Ok::<ReadStep, StreamError>(ReadStep::EndOfMessage) ==> final(self)@.stream_ended
                && final(self)@.out == inflated(final(self)@.fed),
            r is Err ==> (r == Err::<ReadStep, StreamError>(StreamError::Primitive) && final(self)@.failed)
                || (r == Err::<ReadStep, StreamError>(StreamError::Truncated) && final(self)@.drained()
                && !final(self)@.stream_ended)
                || (r == Err::<ReadStep, StreamError>(StreamError::Counters) && (final(self)@.fed.len() + CHUNK_SIZE
                > u64::MAX || final(self)@.out.len() + old(buf)@.len() > u64::MAX)),
    {
        if self.failed {
            return Err(StreamError::Primitive);
        }
        let ghost consumed0 = self.consumed@;
        let ghost window0 = self@.window;
        let ghost fed0 = self@.fed;
        let ghost out0 = self@.out;
        assert(self@.fed == fed0 + self.consumed@.skip(consumed0.len() as int)) by {
            assert(self.consumed@.skip(consumed0.len() as int) =~= Seq::<u8>::empty());
            assert(self@.fed =~= fed0 + Seq::<u8>::empty());
        }
        loop
            invariant
                self.wf(),
                !self.failed,
                buf@.len() == old(buf)@.len(),
                buf@.len() > 0,
                consumed0 == old(self)@.consumed,
                window0 == old(self)@.window,
                fed0 == old(self)@.fed,
                out0 == old(self)@.out,
                !old(self)@.failed,
                self.header == old(self)@.header,
                self.received@ == old(self)@.received,
                self.raw@ == old(self)@.raw,
                self.frames@ == old(self)@.frames,
                self@.out == out0,
                self.bytes_out == old(self).bytes_out,
                self@.bytes_in == saturating(old(self)@.bytes_in, (self@.fed.len() - fed0.len()) as nat),
                self@.fed.len() >= fed0.len(),
                old(self)@.stream_ended ==> self.stream_ended,
                old(self)@.wants_header() || old(self)@.wants_payload() ==> self.stream_ended
                    == old(self)@.stream_ended,
                self.consumed@.len() >= consumed0.len(),
                self.consumed@ + self@.window == consumed0 + window0,
                self@.fed == fed0 + self.consumed@.skip(consumed0.len() as int),
                old(self)@.wants_header() || old(self)@.wants_payload() ==> self.start == old(self).start,
            decreases self.window@.len() - self.start, if self.stream_ended { 0int } else { 1int },
        {
            if self.stream_ended {
                return Ok(ReadStep::EndOfMessage);
            }
            if self.start == self.window.len() {
                if self.header.length > 0 {
                    let n: usize = if (self.header.length as usize) < CHUNK_SIZE { self.header.length as usize } else { CHUNK_SIZE };
                    return Ok(ReadStep::NeedPayload(n));
                }
                if !self.header.finished {
                    return Ok(ReadStep::NeedHeader);
                }
                let ghost c0 = self.consumed@;
                let (_, made) = self.run(true, buf)?;
                proof {
                    assert(self.window@.subrange(self.start as int, self.start as int) =~= Seq::<u8>::empty());
                    assert(self.consumed@ =~= c0);
                }
                if made > 0 {
                    return Ok(ReadStep::Produced(made));
                }
                if self.stream_ended {
                    return Ok(ReadStep::EndOfMessage);
                }
                return Err(StreamError::Truncated);
            }
            let ghost c0 = self.consumed@;
            let ghost w0 = self@.window;
            let ghost s0 = self.start as int;
            let ghost f1 = self@.fed;
            let ghost b1 = self@.bytes_in;
            let (taken, made) = self.run(false, buf)?;
            proof {
                let piece = self.window@.subrange(s0, self.start as int);
                assert(w0 =~= piece + self@.window);
                assert(self.consumed@ + self@.window =~= c0 + w0);
                assert(self.consumed@.skip(consumed0.len() as int) =~= c0.skip(consumed0.len() as int) + piece);
                assert(self@.fed =~= fed0 + self.consumed@.skip(consumed0.len() as int));
                lemma_saturating_assoc(old(self)@.bytes_in, (f1.len() - fed0.len()) as nat, taken as nat);
            }
            if made > 0 {
                return Ok(ReadStep::Produced(made));
            }
            proof {
                assert(self@.out =~= out0);
            }
        }
    }

    /// Skips what is left of the message: drops the unread window and says
    /// what the connection must still supply before the final frame has
    /// been taken in full; payload supplied meanwhile is dropped in turn.
    pub fn finish_step(&mut self) -> (r: ReadStep)
        requires
            old(self).wf(),
        ensures
            final(self).wf(),
            final(self)@ == (DecompressorView {
                window: Seq::empty(),
                consumed: old(self)@.consumed + old(self)@.window,
                ..old(self)@
            }),
            r == (if old(self)@.header.length > 0 {
                ReadStep::NeedPayload(old(self)@.payload_room() as usize)
            } else if !old(self)@.header.finished {
                ReadStep::NeedHeader
            } else {
                ReadStep::EndOfMessage
            }),
    {
        let ghost rest = self@.window;
        self.consumed = Ghost(self.consumed@ + rest);
        self.start = self.window.len();
        proof {
            assert(self.window@.subrange(self.start as int, self.window@.len() as int) =~= Seq::<u8>::empty());
            assert(self.received@ =~= self.consumed@ + Seq::<u8>::empty());
            assert(self@.window =~= Seq::<u8>::empty());
        }
        if self.header.length > 0 {
            let n: usize = if (self.header.length as usize) < CHUNK_SIZE { self.header.length as usize } else { CHUNK_SIZE };
            ReadStep::NeedPayload(n)
        } else if !self.header.finished {
            ReadStep::NeedHeader
        } else {
            ReadStep::EndOfMessage
        }
    }
}

/// Read-back of a framed message: once a decompressor has taken in a
/// whole message (its final frame in full) from a stream that starts with
/// the frames of a message `fs`, it has taken exactly those frames' bytes,
/// no byte of what follows them, and the payload it received is exactly
/// the payload that was framed.
pub proof fn message_read_back(d: &Decompressor, fs: Seq<Frame>, tail: Seq<u8>)
    requires
        d.wf(),
        d@.drained(),
        is_message(fs),
        d@.raw.len() <= frames_bytes(fs).len() + tail.len(),
        (frames_bytes(fs) + tail).subrange(0, d@.raw.len() as int) == d@.raw,
    ensures
        d@.raw == frames_bytes(fs),
        d@.received == frames_payload(fs),
{
    let own = d@.frames;
    assert(own.len() > 0);
    assert(is_message(own)) by {
        assert(own.last().complete());
        assert forall|i: int| 0 <= i < own.len() implies (#[trigger] own[i]).complete() by {
            if i < own.len() - 1 {
                assert(own[i].complete());
            }
        }
    }
    framing_round_trip(own, Seq::empty());
    assert(frames_bytes(own) + Seq::<u8>::empty() =~= d@.raw);
    let stream = frames_bytes(fs) + tail;
    let rest = stream.subrange(d@.raw.len() as int, stream.len() as int);
    assert(stream =~= d@.raw + rest);
    lemma_parse_extend(d@.raw, rest);
    framing_round_trip(fs, tail);
    assert(d@.raw =~= stream.subrange(0, frames_bytes(fs).len() as int));
    assert(frames_bytes(fs) =~= stream.subrange(0, frames_bytes(fs).len() as int));
}

/// Round trip: a compressor delivers a message; a decompressor reads it
/// from a stream that starts with that message's frames, takes in the final
/// frame in full and reaches the end of the compressed stream, having fed
/// the primitive only payload it received, in order. Then the bytes it
/// decoded are exactly the bytes written to the compressor for the message.
pub proof fn round_trip(c: CompressorView, d: &Decompressor, tail: Seq<u8>)
    requires
        c.delivered(),
        d.wf(),
        d@.drained(),
        d@.stream_ended,
        is_prefix(d@.fed, d@.received),
        d@.raw.len() <= frames_bytes(c.frames).len() + tail.len(),
        (frames_bytes(c.frames) + tail).subrange(0, d@.raw.len() as int) == d@.raw,
    ensures
        d@.out == c.input,
{
    message_read_back(d, c.frames, tail);
    let m = d@.received;
    let more = m.subrange(d@.fed.len() as int, m.len() as int);
    assert(d@.fed + more =~= m);
    assert(inflated(d@.fed + more) == inflated(d@.fed));
}

} // verus!
