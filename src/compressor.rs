//! The sending half of the compression layer: it feeds written bytes to the
//! deflate stream and frames every chunk the stream emits, so that a reader
//! can tell where one logical message ends on a shared connection.
use vstd::prelude::*;
use crate::frame::{
    Frame, Header, complete_frames, frames_bytes, frames_length, frames_payload, is_message, lemma_frames_length,
    lemma_frames_push,
};
use crate::zlib::{
    Deflater, Progress, inflated, saturating, lemma_saturating_assoc, deflate_new, deflate_reset, deflate_step,
    deflate_total_in, deflate_total_out, micros_since, add_micros,
};

verus! {

/// Size of the scratch buffer that receives each compressed chunk, and so
/// the largest payload of a frame.
pub const CHUNK_SIZE: usize = 8192;

/// How many calls of the primitive one write or flush may make before it
/// gives up for want of progress.
pub const MAX_ATTEMPTS: u32 = 1048576;

/// Failures of the compression layer; all of them end the connection.
#[derive(Debug, Clone, Copy, PartialEq, Eq, Structural)]
pub enum StreamError {
    /// The primitive rejected the compressed data.
    Primitive,
    /// A byte counter of the stream would pass `u64::MAX`.
    Counters,
    /// The bounded retry loop ran out without progress.
    NoProgress,
    /// A frame header carried an invalid flag byte.
    BadHeader(u8),
    /// The final frame arrived but the compressed stream did not end.
    Truncated,
}

/// The state of the current logical message, as the compressor sees it.
pub struct CompressorView {
    /// Frames written for the current message.
    pub frames: Seq<Frame>,
    /// Bytes of the current message the primitive has taken.
    pub input: Seq<u8>,
    /// The current message was completed by a flush.
    pub ended: bool,
    /// A flush of the current message was begun and did not complete.
    pub flushing: bool,
    pub bytes_in: nat,
    pub bytes_out: nat,
    /// Microseconds spent inside the primitive.
    pub elapsed_us: nat,
}

impl CompressorView {
    /// The current message is complete: its frames form a logical message
    /// whose payload decodes to exactly the bytes taken for it.
    pub open spec fn delivered(self) -> bool {
        &&& self.ended
        &&& is_message(self.frames)
        &&& inflated(frames_payload(self.frames)) == self.input
    }

    /// The next write starts a new message: the current one has ended, or
    /// a flush of it was begun.
    pub open spec fn restarts(self) -> bool {
        self.ended || self.flushing
    }

    /// Frames that the next write extends.
    pub open spec fn open_frames(self) -> Seq<Frame> {
        if self.restarts() { Seq::empty() } else { self.frames }
    }

    /// Input that the next write extends.
    pub open spec fn open_input(self) -> Seq<u8> {
        if self.restarts() { Seq::empty() } else { self.input }
    }
}

/// Appends `header` and the first `len` bytes of `src` to `dest`.
fn emit_frame(dest: &mut Vec<u8>, header: Header, src: &Vec<u8>, len: usize)
    requires
        len <= src@.len(),
        header.length == len,
    ensures
        final(dest)@ == old(dest)@ + (Frame { header, payload: src@.subrange(0, len as int) }).bytes(),
{
    let hb = header.to_bytes();
    let mut i: usize = 0;
    while i < 5
        invariant
            i <= 5,
            dest@ == old(dest)@ + hb@.subrange(0, i as int),
        decreases 5 - i,
    {
        dest.push(hb[i]);
        i = i + 1;
        assert(dest@ =~= old(dest)@ + hb@.subrange(0, i as int));
    }
    let ghost mid = dest@;
    let mut j: usize = 0;
    while j < len
        invariant
            j <= len,
            len <= src@.len(),
            dest@ == mid + src@.subrange(0, j as int),
        decreases len - j,
    {
        dest.push(src[j]);
        j = j + 1;
        assert(dest@ =~= mid + src@.subrange(0, j as int));
    }
    assert(hb@.subrange(0, 5) =~= hb@);
}

/// The bytes and payloads of the frames after the first `k` grow by one
/// frame's when a frame is appended.
proof fn lemma_frames_skip_push(fs: Seq<Frame>, k: int, f: Frame)
    requires
        0 <= k <= fs.len(),
    ensures
        frames_bytes(fs.push(f).skip(k)) == frames_bytes(fs.skip(k)) + f.bytes(),
        frames_payload(fs.push(f).skip(k)) == frames_payload(fs.skip(k)) + f.payload,
        frames_payload(fs.push(f)) == frames_payload(fs) + f.payload,
        fs.push(f).subrange(0, k) == fs.subrange(0, k),
{
    assert(fs.push(f).skip(k) =~= fs.skip(k).push(f));
    assert(fs.push(f).subrange(0, k) =~= fs.subrange(0, k));
    lemma_frames_push(fs.skip(k), f);
    lemma_frames_push(fs, f);
}

/// The bytes and payload of one frame alone.
proof fn lemma_single_frame(f: Frame)
    ensures
        frames_bytes(seq![f]) == f.bytes(),
        frames_payload(seq![f]) == f.payload,
{
    lemma_frames_push(Seq::empty(), f);
    assert(Seq::<Frame>::empty().push(f) =~= seq![f]);
    assert(frames_bytes(Seq::<Frame>::empty()) == Seq::<u8>::empty());
    assert(frames_payload(Seq::<Frame>::empty()) == Seq::<u8>::empty());
    assert(Seq::<u8>::empty() + f.bytes() =~= f.bytes());
    assert(Seq::<u8>::empty() + f.payload =~= f.payload);
}

/// Frames after the first `k` of complete frames are complete, and their
/// announced lengths add up to their payload's.
proof fn lemma_new_frames(fs: Seq<Frame>, k: int)
    requires
        0 <= k <= fs.len(),
        complete_frames(fs),
    ensures
        complete_frames(fs.skip(k)),
        frames_length(fs.skip(k)) == frames_payload(fs.skip(k)).len(),
{
    assert forall|i: int| 0 <= i < fs.skip(k).len() implies (#[trigger] fs.skip(k)[i]).complete() by {
        assert(fs.skip(k)[i] == fs[i + k]);
    }
    lemma_frames_length(fs.skip(k));
}

/// Frames whose headers have a positive length, save a final one, and none
/// longer than a chunk.
pub open spec fn sized_frames(fs: Seq<Frame>) -> bool {
    forall|i: int| 0 <= i < fs.len() ==> ((#[trigger] fs[i]).header.length > 0 || fs[i].header.finished)
        && fs[i].header.length <= CHUNK_SIZE
}

/// Frames made while a chunk-sized output filled up: non-final, a chunk
/// long each.
pub open spec fn full_frames(fs: Seq<Frame>) -> bool {
    forall|i: int| 0 <= i < fs.len() ==> (#[trigger] fs[i]).header.length == CHUNK_SIZE && !fs[i].header.finished
}

pub struct Compressor {
    comp: Deflater,
    buffer: Vec<u8>,
    ended: bool,
    flushing: bool,
    bytes_in: u64,
    bytes_out: u64,
    elapsed_us: u64,
    frames: Ghost<Seq<Frame>>,
    input: Ghost<Seq<u8>>,
}

impl View for Compressor {
    type V = CompressorView;

    closed spec fn view(&self) -> CompressorView {
        CompressorView {
            frames: self.frames@,
            input: self.input@,
            ended: self.ended,
            flushing: self.flushing,
            bytes_in: self.bytes_in as nat,
            bytes_out: self.bytes_out as nat,
            elapsed_us: self.elapsed_us as nat,
        }
    }
}

impl Compressor {
    /// Frames are complete, at most a chunk long and, save a final one, not
    /// empty; only the frame that ended the message is final. The stream
    /// has taken the message's input and made its frames' payloads.
    pub closed spec fn wf(&self) -> bool {
        &&& self.buffer@.len() == CHUNK_SIZE
        &&& forall|i: int| 0 <= i < self.frames@.len() ==> (#[trigger] self.frames@[i]).complete()
        &&& forall|i: int|
            0 <= i < self.frames@.len() - 1 ==> !(#[trigger] self.frames@[i]).header.finished
        &&& sized_frames(self.frames@)
        &&& self.ended <==> (self.frames@.len() > 0 && self.frames@.last().header.finished)
        &&& self.comp.taken() == self.input@
        &&& self.input@.len() <= u64::MAX
        &&& self.comp.made() == frames_payload(self.frames@)
        &&& self.ended ==> inflated(frames_payload(self.frames@)) == self.input@
        &&& self.comp.ended() == self.ended
        &&& self.comp.finishing() == (self.ended || self.flushing)
        &&& !(self.ended && self.flushing)
    }

    /// A compressor at the given zlib level (0 to 10), with no message yet.
    pub fn new(level: u32) -> (r: Compressor)
        requires
            level <= 10,
        ensures
            r.wf(),
            r@.frames == Seq::<Frame>::empty(),
            r@.input == Seq::<u8>::empty(),
            !r@.ended,
            !r@.flushing,
            r@.bytes_in == 0,
            r@.bytes_out == 0,
            r@.elapsed_us == 0,
    {
        let r = Compressor {
            comp: deflate_new(level),
            buffer: vec![0u8; CHUNK_SIZE],
            ended: false,
            flushing: false,
            bytes_in: 0,
            bytes_out: 0,
            elapsed_us: 0,
            frames: Ghost(Seq::empty()),
            input: Ghost(Seq::empty()),
        };
        assert(frames_payload(Seq::<Frame>::empty()) == Seq::<u8>::empty());
        r
    }

    /// Uncompressed bytes taken so far, over all messages.
    pub fn total_in(&self) -> (r: u64)
        ensures
            r == self@.bytes_in,
    {
        self.bytes_in
    }

    /// Compressed payload bytes framed so far, over all messages.
    pub fn total_out(&self) -> (r: u64)
        ensures
            r == self@.bytes_out,
    {
        self.bytes_out
    }

    /// Microseconds spent inside the primitive, saturating at `u32::MAX`.
    pub fn elapsed(&self) -> (r: u32)
        ensures
            r == (if self@.elapsed_us > u32::MAX { u32::MAX } else { self@.elapsed_us as u32 }),
    {
        if self.elapsed_us > u32::MAX as u64 {
            u32::MAX
        } else {
            self.elapsed_us as u32
        }
    }

    /// One call of the primitive into the scratch buffer, framing what it
    /// made; returns the bytes taken and whether the stream ended. It
    /// refuses to run when a counter of the stream could pass `u64::MAX`.
    fn step(&mut self, dest: &mut Vec<u8>, input: &[u8], finish: bool) -> (r: Result<(usize, bool), StreamError>)
        requires
            old(self).wf(),
            !old(self).ended,
            finish || !old(self).flushing,
            finish || input@.len() > 0,
        ensures
            final(self).wf(),
            r is Ok ==> final(self).flushing == (!final(self).ended && (old(self).flushing || finish)),
            final(self).frames@.len() >= old(self).frames@.len(),
            final(self).frames@.subrange(0, old(self).frames@.len() as int) == old(self).frames@,
            final(dest)@ == old(dest)@ + frames_bytes(final(self).frames@.skip(old(self).frames@.len() as int)),
            final(self).bytes_out == saturating(old(self).bytes_out as nat, (frames_payload(final(self).frames@).len()
                - frames_payload(old(self).frames@).len()) as nat),
            frames_payload(final(self).frames@).len() >= frames_payload(old(self).frames@).len(),
            r is Err ==> r == Err::<(usize, bool), StreamError>(StreamError::Counters) && final(self)@ == old(self)@
                && final(dest)@ == old(dest)@ && (old(self)@.input.len() + input@.len() > u64::MAX
                || frames_payload(old(self)@.frames).len() + CHUNK_SIZE > u64::MAX),
            r matches Ok((taken, end)) ==> {
                &&& taken <= input@.len()
                &&& final(self).input@ == old(self).input@ + input@.subrange(0, taken as int)
                &&& final(self).bytes_in == saturating(old(self).bytes_in as nat, taken as nat)
                &&& final(self).ended == end
                &&& !finish ==> !end && final(self).frames@.len() <= old(self).frames@.len() + 1
                    && (taken == input@.len() || (final(self).frames@.len() == old(self).frames@.len() + 1
                    && full_frames(final(self).frames@.skip(old(self).frames@.len() as int))))
                &&& finish ==> final(self).frames@.len() == old(self).frames@.len() + 1
                    && (end || full_frames(final(self).frames@.skip(old(self).frames@.len() as int)))
                &&& forall|i: int| old(self).frames@.len() <= i < final(self).frames@.len() ==>
                    (#[trigger] final(self).frames@[i]).header.finished == end
            },
            final(self).elapsed_us >= 0,
    {
        let before_in = deflate_total_in(&self.comp);
        let before_out = deflate_total_out(&self.comp);
        if before_in > u64::MAX - input.len() as u64 || before_out > u64::MAX - CHUNK_SIZE as u64 {
            proof {
                assert(self.frames@.subrange(0, self.frames@.len() as int) =~= self.frames@);
                assert(self.frames@.skip(self.frames@.len() as int) =~= Seq::<Frame>::empty());
                assert(frames_bytes(Seq::<Frame>::empty()) == Seq::<u8>::empty());
                assert(dest@ =~= old(dest)@ + Seq::<u8>::empty());
            }
            return Err(StreamError::Counters);
        }
        let ghost f0 = self.frames@;
        let start = std::time::Instant::now();
        let status = deflate_step(&mut self.comp, input, &mut self.buffer, finish);
        self.elapsed_us = add_micros(self.elapsed_us, micros_since(&start));
        let after_in = deflate_total_in(&self.comp);
        let after_out = deflate_total_out(&self.comp);
        let taken = (after_in - before_in) as usize;
        let made = (after_out - before_out) as usize;
        let end = match status {
            Ok(Progress::Running) => false,
            Ok(Progress::StreamEnd) => true,
            _ => {
                return Err(StreamError::Primitive);
            },
        };
        if finish && !end {
            self.flushing = true;
        }
        if end {
            self.flushing = false;
        }
        self.input = Ghost(self.input@ + input@.subrange(0, taken as int));
        self.bytes_in = if taken as u64 > u64::MAX - self.bytes_in { u64::MAX } else { self.bytes_in + taken as u64 };
        self.bytes_out = if made as u64 > u64::MAX - self.bytes_out { u64::MAX } else { self.bytes_out + made as u64 };
        if made > 0 || end {
            let header = Header { length: made as u32, finished: end };
            let ghost f = Frame { header, payload: self.buffer@.subrange(0, made as int) };
            emit_frame(dest, header, &self.buffer, made);
            proof {
                assert(f0.subrange(0, f0.len() as int) =~= f0);
                lemma_frames_skip_push(f0, f0.len() as int, f);
                assert(f0.skip(f0.len() as int) =~= Seq::<Frame>::empty());
                assert(frames_bytes(Seq::<Frame>::empty()) == Seq::<u8>::empty());
                assert(f0.push(f).skip(f0.len() as int) =~= seq![f]);
                if f0.len() > 0 {
                    assert(!f0.last().header.finished);
                }
            }
            self.frames = Ghost(f0.push(f));
            self.ended = end;
            proof {
                assert forall|i: int| 0 <= i < self.frames@.len() - 1 implies !(#[trigger] self.frames@[i]).header.finished by {
                    assert(self.frames@[i] == f0[i]);
                }
                assert forall|i: int| 0 <= i < self.frames@.len() implies (#[trigger] self.frames@[i]).complete()
                    && ((self.frames@[i].header.length > 0 || self.frames@[i].header.finished) && self.frames@[i].header.length <= CHUNK_SIZE) by {
                    if i < f0.len() {
                        assert(self.frames@[i] == f0[i]);
                    }
                }
                assert(dest@ =~= old(dest)@ + frames_bytes(self.frames@.skip(f0.len() as int)));
            }
        } else {
            proof {
                assert(self.frames@.skip(f0.len() as int) =~= Seq::<Frame>::empty());
                assert(frames_bytes(Seq::<Frame>::empty()) == Seq::<u8>::empty());
                assert(dest@ =~= old(dest)@ + frames_bytes(self.frames@.skip(f0.len() as int)));
                assert(self.frames@.subrange(0, f0.len() as int) =~= f0);
            }
        }
        Ok((taken, end))
    }

    /// Compresses a prefix of `buf`, appending a non-final, non-empty frame
    /// for every chunk the primitive emits, and returns how many bytes were
    /// taken. A write after a completed (or begun) flush starts a new message
    /// from a fresh stream. An empty `buf` is taken at once, with nothing
    /// written. A non-empty `buf` is always taken in part, unless a counter
    /// of the stream would pass `u64::MAX`, or the retry bound runs out after
    /// `MAX_ATTEMPTS` full chunks without input taken.
    pub fn write(&mut self, dest: &mut Vec<u8>, buf: &[u8]) -> (r: Result<usize, StreamError>)
        requires
            old(self).wf(),
        ensures
            final(self).wf(),
            sized_frames(final(self)@.frames),
            complete_frames(final(self)@.frames),
            buf@.len() == 0 ==> r == Ok::<usize, StreamError>(0) && final(self)@ == old(self)@
                && final(dest)@ == old(dest)@,
            buf@.len() > 0 ==> {
                let base = old(self)@.open_frames();
                let new_frames = final(self)@.frames.skip(base.len() as int);
                &&& !final(self)@.ended
                &&& !final(self)@.flushing
                &&& final(self)@.frames.len() >= base.len()
                &&& final(self)@.frames.subrange(0, base.len() as int) == base
                &&& final(dest)@ == old(dest)@ + frames_bytes(new_frames)
                &&& forall|i: int| 0 <= i < new_frames.len() ==> (#[trigger] new_frames[i]).complete()
                    && !new_frames[i].header.finished
                &&& frames_length(new_frames) == frames_payload(new_frames).len()
                &&& final(self)@.bytes_out == saturating(old(self)@.bytes_out, frames_payload(new_frames).len())
                &&& match r {
                    Ok(n) => 0 < n <= buf@.len()
                        && final(self)@.input == old(self)@.open_input() + buf@.subrange(0, n as int)
                        && final(self)@.bytes_in == saturating(old(self)@.bytes_in, n as nat),
                    Err(e) => final(self)@.bytes_in == old(self)@.bytes_in
                        && final(self)@.input == old(self)@.open_input()
                        && ((e == StreamError::NoProgress && new_frames.len() == MAX_ATTEMPTS && full_frames(new_frames))
                        || (e == StreamError::Counters && (final(self)@.input.len() + buf@.len() > u64::MAX
                        || frames_payload(final(self)@.frames).len() + CHUNK_SIZE > u64::MAX))),
                }
            },
    {
        if buf.len() == 0 {
            return Ok(0);
        }
        if self.ended || self.flushing {
            deflate_reset(&mut self.comp);
            self.ended = false;
            self.flushing = false;
            self.frames = Ghost(Seq::empty());
            self.input = Ghost(Seq::empty());
            assert(frames_payload(Seq::<Frame>::empty()) == Seq::<u8>::empty());
        }
        let ghost base = self.frames@;
        let ghost base_input = self.input@;
        assert(base == old(self)@.open_frames());
        assert(dest@ == old(dest)@ + frames_bytes(self.frames@.skip(base.len() as int))) by {
            assert(self.frames@.skip(base.len() as int) =~= Seq::<Frame>::empty());
            assert(frames_bytes(Seq::<Frame>::empty()) == Seq::<u8>::empty());
            assert(dest@ =~= old(dest)@ + Seq::<u8>::empty());
        }
        assert(frames_payload(self.frames@.skip(base.len() as int)) == Seq::<u8>::empty()) by {
            assert(self.frames@.skip(base.len() as int) =~= Seq::<Frame>::empty());
        }
        assert(self.frames@.subrange(0, base.len() as int) =~= base);
        proof { lemma_new_frames(self.frames@, base.len() as int); }
        let mut attempts: u32 = 0;
        while attempts < MAX_ATTEMPTS
            invariant
                self.wf(),
                buf@.len() > 0,
                !self.ended,
                !self.flushing,
                base == old(self)@.open_frames(),
                base_input == old(self)@.open_input(),
                self.bytes_in == old(self).bytes_in,
                self.input@ == base_input,
                attempts <= MAX_ATTEMPTS,
                self.frames@.len() == base.len() + attempts,
                self.frames@.subrange(0, base.len() as int) == base,
                full_frames(self.frames@.skip(base.len() as int)),
                complete_frames(self.frames@.skip(base.len() as int)),
                frames_length(self.frames@.skip(base.len() as int)) == frames_payload(self.frames@.skip(base.len() as int)).len(),
                dest@ == old(dest)@ + frames_bytes(self.frames@.skip(base.len() as int)),
                frames_payload(self.frames@) == frames_payload(base) + frames_payload(self.frames@.skip(base.len() as int)),
                self.bytes_out == saturating(old(self).bytes_out as nat, frames_payload(self.frames@.skip(base.len() as int)).len()),
            decreases MAX_ATTEMPTS - attempts,
        {
            let ghost f0 = self.frames@;
            let ghost d0 = dest@;
            let (taken, _) = self.step(dest, buf, false)?;
            proof {
                lemma_new_frames(self.frames@, base.len() as int);
                assert forall|i: int| 0 <= i < self.frames@.skip(base.len() as int).len() implies
                    !(#[trigger] self.frames@.skip(base.len() as int)[i]).header.finished by {
                    assert(self.frames@.skip(base.len() as int)[i] == self.frames@[i + base.len()]);
                    if i + base.len() < self.frames@.len() - 1 {
                        assert(!self.frames@[i + base.len()].header.finished);
                    }
                }
                let f1 = self.frames@;
                if f1.len() > f0.len() {
                    let f = f1.last();
                    assert(f1 =~= f0.push(f));
                    lemma_frames_skip_push(f0, base.len() as int, f);
                    assert(f1.skip(f0.len() as int) =~= seq![f]);
                    lemma_single_frame(f);
                    lemma_saturating_assoc(old(self).bytes_out as nat, frames_payload(f0.skip(base.len() as int)).len(), f.payload.len());
                    assert(frames_payload(f1) =~= frames_payload(base) + frames_payload(f1.skip(base.len() as int)));
                    assert(dest@ =~= old(dest)@ + frames_bytes(f1.skip(base.len() as int)));
                } else {
                    assert(f1 =~= f0);
                    assert(f1.skip(f0.len() as int) =~= Seq::<Frame>::empty());
                    assert(frames_bytes(Seq::<Frame>::empty()) == Seq::<u8>::empty());
                    assert(dest@ =~= d0);
                }
            }
            if taken > 0 {
                return Ok(taken);
            }
            proof {
                let f1 = self.frames@;
                let f = f1.last();
                assert(f1.skip(base.len() as int) =~= f0.skip(base.len() as int).push(f));
                assert(full_frames(f1.skip(f0.len() as int)));
                assert(f1.skip(f0.len() as int)[0] == f);
                assert(full_frames(f1.skip(base.len() as int))) by {
                    assert forall|i: int| 0 <= i < f1.skip(base.len() as int).len() implies
                        (#[trigger] f1.skip(base.len() as int)[i]).header.length == CHUNK_SIZE
                        && !f1.skip(base.len() as int)[i].header.finished by {
                        if i < f0.len() - base.len() {
                            assert(f1.skip(base.len() as int)[i] == f0.skip(base.len() as int)[i]);
                        }
                    }
                }
            }
            attempts = attempts + 1;
        }
        Err(StreamError::NoProgress)
    }

    /// Ends the current message: drains the primitive in finish mode and
    /// appends its remaining chunks as frames, the last one final. The final
    /// frame is empty when the stream ends just after a chunk that filled the
    /// buffer: the reader still needs it to see where the message ends. A message
    /// that has already ended is left as it is and nothing is written. An
    /// open message is always ended, unless a counter of the stream would
    /// pass `u64::MAX`, or the retry bound runs out after `MAX_ATTEMPTS`
    /// full chunks.
    pub fn flush(&mut self, dest: &mut Vec<u8>) -> (r: Result<(), StreamError>)
        requires
            old(self).wf(),
        ensures
            final(self).wf(),
            sized_frames(final(self)@.frames),
            complete_frames(final(self)@.frames),
            old(self)@.ended ==> r is Ok && final(self)@ == old(self)@ && final(dest)@ == old(dest)@,
            !old(self)@.ended ==> {
                let base = old(self)@.frames;
                let new_frames = final(self)@.frames.skip(base.len() as int);
                &&& final(self)@.input == old(self)@.input
                &&& final(self)@.bytes_in == old(self)@.bytes_in
                &&& final(self)@.frames.len() >= base.len()
                &&& final(self)@.frames.subrange(0, base.len() as int) == base
                &&& final(dest)@ == old(dest)@ + frames_bytes(new_frames)
                &&& frames_length(new_frames) == frames_payload(new_frames).len()
                &&& final(self)@.bytes_out == saturating(old(self)@.bytes_out, frames_payload(new_frames).len())
                &&& match r {
                    Ok(()) => final(self)@.delivered() && !final(self)@.flushing,
                    Err(e) => !final(self)@.ended && ((e == StreamError::NoProgress && new_frames.len() == MAX_ATTEMPTS
                        && full_frames(new_frames)) || (e == StreamError::Counters
                        && frames_payload(final(self)@.frames).len() + CHUNK_SIZE > u64::MAX)),
                }
            },
    {
        if self.ended {
            return Ok(());
        }
        let ghost base = self.frames@;
        assert(dest@ == old(dest)@ + frames_bytes(self.frames@.skip(base.len() as int))) by {
            assert(self.frames@.skip(base.len() as int) =~= Seq::<Frame>::empty());
            assert(frames_bytes(Seq::<Frame>::empty()) == Seq::<u8>::empty());
            assert(dest@ =~= old(dest)@ + Seq::<u8>::empty());
        }
        assert(frames_payload(self.frames@.skip(base.len() as int)) == Seq::<u8>::empty()) by {
            assert(self.frames@.skip(base.len() as int) =~= Seq::<Frame>::empty());
        }
        assert(frames_payload(self.frames@) =~= frames_payload(base) + Seq::<u8>::empty());
        assert(self.frames@.subrange(0, base.len() as int) =~= base);
        proof { lemma_new_frames(self.frames@, base.len() as int); }
        let mut attempts: u32 = 0;
        while attempts < MAX_ATTEMPTS
            invariant
                self.wf(),
                !self.ended,
                !old(self)@.ended,
                base == old(self)@.frames,
                self.input@ == old(self)@.input,
                self.bytes_in == old(self).bytes_in,
                attempts <= MAX_ATTEMPTS,
                self.frames@.len() == base.len() + attempts,
                self.frames@.subrange(0, base.len() as int) == base,
                full_frames(self.frames@.skip(base.len() as int)),
                complete_frames(self.frames@.skip(base.len() as int)),
                frames_length(self.frames@.skip(base.len() as int)) == frames_payload(self.frames@.skip(base.len() as int)).len(),
                dest@ == old(dest)@ + frames_bytes(self.frames@.skip(base.len() as int)),
                frames_payload(self.frames@) == frames_payload(base) + frames_payload(self.frames@.skip(base.len() as int)),
                self.bytes_out == saturating(old(self).bytes_out as nat, frames_payload(self.frames@.skip(base.len() as int)).len()),
            decreases MAX_ATTEMPTS - attempts,
        {
            let ghost f0 = self.frames@;
            let (_, end) = self.step(dest, &[], true)?;
            proof {
                lemma_new_frames(self.frames@, base.len() as int);
                let f1 = self.frames@;
                let f = f1.last();
                assert(f1 =~= f0.push(f));
                assert(self.input@ =~= old(self)@.input);
                lemma_frames_skip_push(f0, base.len() as int, f);
                lemma_saturating_assoc(old(self).bytes_out as nat, frames_payload(f0.skip(base.len() as int)).len(), f.payload.len());
                assert(frames_payload(f1) =~= frames_payload(base) + frames_payload(f1.skip(base.len() as int)));
                assert(f1.skip(f0.len() as int) =~= seq![f]);
                lemma_single_frame(f);
                assert(dest@ =~= old(dest)@ + frames_bytes(f1.skip(base.len() as int)));
            }
            if end {
                proof {
                    let fs = self.frames@;
                    assert forall|i: int| 0 <= i < fs.len() implies (#[trigger] fs[i]).complete() by {}
                }
                return Ok(());
            }
            proof {
                let f1 = self.frames@;
                let f = f1.last();
                assert(f1.skip(f0.len() as int)[0] == f);
                assert(full_frames(f1.skip(base.len() as int))) by {
                    assert forall|i: int| 0 <= i < f1.skip(base.len() as int).len() implies
                        (#[trigger] f1.skip(base.len() as int)[i]).header.length == CHUNK_SIZE
                        && !f1.skip(base.len() as int)[i].header.finished by {
                        if i < f0.len() - base.len() {
                            assert(f1.skip(base.len() as int)[i] == f0.skip(base.len() as int)[i]);
                        }
                    }
                }
            }
            attempts = attempts + 1;
        }
        Err(StreamError::NoProgress)
    }
}

} // verus!
