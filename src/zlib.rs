//! The outside compression primitive (flate2's raw zlib streams) and the
//! clock used to time it, behind the items whose contracts are trusted.
use vstd::prelude::*;

verus! {

#[verifier::external_type_specification]
#[verifier::external_body]
pub struct ExCompress(flate2::Compress);

#[verifier::external_type_specification]
#[verifier::external_body]
pub struct ExDecompress(flate2::Decompress);

#[verifier::external_type_specification]
#[verifier::external_body]
pub struct ExCompressError(flate2::CompressError);

#[verifier::external_type_specification]
#[verifier::external_body]
pub struct ExDecompressError(flate2::DecompressError);

#[verifier::external_type_specification]
#[verifier::external_body]
pub struct ExInstant(std::time::Instant);

/// What one call of the primitive reported, besides the bytes it moved.
#[derive(Debug, Clone, Copy, PartialEq, Eq, Structural)]
pub enum Progress {
    /// More input may be taken, or more output is waiting.
    Running,
    /// No progress was possible with the buffers given.
    BufError,
    /// The stream is complete.
    StreamEnd,
}

/// The bytes that zlib decoding determines from the start `data` of a
/// compressed stream. Decoding stops at the end of the stream: bytes after
/// it determine nothing more.
pub uninterp spec fn inflated(data: Seq<u8>) -> Seq<u8>;

/// `a` is a prefix of `b`.
pub open spec fn is_prefix(a: Seq<u8>, b: Seq<u8>) -> bool {
    a.len() <= b.len() && b.subrange(0, a.len() as int) == a
}

/// flate2's deflate stream, with what it has done since it was made or
/// reset: the bytes taken and made, whether a call in finish mode was made,
/// and whether the stream has ended. Only the items below, each
/// of which makes one call into flate2, touch it.
pub struct Deflater {
    stream: flate2::Compress,
    taken: Ghost<Seq<u8>>,
    made: Ghost<Seq<u8>>,
    finishing: Ghost<bool>,
    ended: Ghost<bool>,
}

impl Deflater {
    /// Bytes the stream has taken.
    pub closed spec fn taken(&self) -> Seq<u8> {
        self.taken@
    }

    /// Bytes the stream has made.
    pub closed spec fn made(&self) -> Seq<u8> {
        self.made@
    }

    /// The count of bytes taken (flate2's `total_in`).
    pub open spec fn total_in(&self) -> nat {
        self.taken().len()
    }

    /// The count of bytes made (flate2's `total_out`).
    pub open spec fn total_out(&self) -> nat {
        self.made().len()
    }

    /// A call in finish mode has been made.
    pub closed spec fn finishing(&self) -> bool {
        self.finishing@
    }

    /// The stream has reported its end.
    pub closed spec fn ended(&self) -> bool {
        self.ended@
    }
}

/// Relies on flate2::Compress::new: a fresh zlib-framed deflate stream.
/// Levels above 10 trip a debug assertion of the pure-Rust backend.
#[verifier::external_body]
pub(crate) fn deflate_new(level: u32) -> (r: Deflater)
    requires
        level <= 10,
    ensures
        r.taken() == Seq::<u8>::empty(),
        r.made() == Seq::<u8>::empty(),
        !r.finishing(),
        !r.ended(),
{
    Deflater {
        stream: flate2::Compress::new(flate2::Compression::new(level), true),
        taken: Ghost(Seq::empty()),
        made: Ghost(Seq::empty()),
        finishing: Ghost(false),
        ended: Ghost(false),
    }
}

/// Relies on flate2::Compress::reset: the same as dropping the stream and
/// making a new one; the counters start again at zero.
#[verifier::external_body]
pub(crate) fn deflate_reset(d: &mut Deflater)
    ensures
        final(d).taken() == Seq::<u8>::empty(),
        final(d).made() == Seq::<u8>::empty(),
        !final(d).finishing(),
        !final(d).ended(),
{
    d.stream.reset()
}

/// Relies on flate2::Compress::total_in.
#[verifier::external_body]
pub(crate) fn deflate_total_in(d: &Deflater) -> (r: u64)
    ensures
        r == d.total_in(),
{
    d.stream.total_in()
}

/// Relies on flate2::Compress::total_out.
#[verifier::external_body]
pub(crate) fn deflate_total_out(d: &Deflater) -> (r: u64)
    ensures
        r == d.total_out(),
{
    d.stream.total_out()
}

/// Relies on flate2::Compress::compress with the pure-Rust backend
/// (miniz_oxide's `deflate`): it takes a prefix of the input and writes a
/// prefix of the output, and the counters move by those amounts. Without
/// `finish`, on some input, it returns once it has taken all of it or filled
/// the output. With `finish`, it returns once the stream has ended or the
/// output is full; without, the stream does not end. It reports no error
/// when the output is not empty, the stream has not ended, and no call
/// without `finish` follows one with it. Deflate is lossless: once the
/// stream has ended, decoding what it made gives back what it took.
#[verifier::external_body]
pub(crate) fn deflate_step(
    d: &mut Deflater,
    input: &[u8],
    output: &mut Vec<u8>,
    finish: bool,
) -> (r: Result<Progress, flate2::CompressError>)
    requires
        old(output)@.len() > 0,
        !old(d).ended(),
        finish || !old(d).finishing(),
        old(d).total_in() + input@.len() <= u64::MAX,
        old(d).total_out() + old(output)@.len() <= u64::MAX,
    ensures
        final(output)@.len() == old(output)@.len(),
        old(d).total_in() <= final(d).total_in() <= old(d).total_in() + input@.len(),
        old(d).total_out() <= final(d).total_out() <= old(d).total_out() + old(output)@.len(),
        final(d).taken() == old(d).taken() + input@.subrange(0, final(d).total_in() - old(d).total_in()),
        final(d).made() == old(d).made() + final(output)@.subrange(0, final(d).total_out() - old(d).total_out()),
        final(d).ended() ==> inflated(final(d).made()) == final(d).taken(),
        final(d).finishing() == (old(d).finishing() || finish),
        !finish ==> !final(d).ended(),
        !finish && input@.len() > 0 ==> (r matches Ok(Progress::Running))
            && !final(d).ended() && (final(d).total_in() == old(d).total_in() + input@.len()
            || final(d).total_out() == old(d).total_out() + old(output)@.len()),
        finish ==> ((r matches Ok(Progress::StreamEnd)) && final(d).ended())
            || ((r matches Ok(Progress::Running)) && !final(d).ended()
            && final(d).total_out() == old(d).total_out() + old(output)@.len()),
{
    let flush = if finish {
        flate2::FlushCompress::Finish
    } else {
        flate2::FlushCompress::None
    };
    match d.stream.compress(input, output.as_mut_slice(), flush) {
        Ok(flate2::Status::Ok) => Ok(Progress::Running),
        Ok(flate2::Status::BufError) => Ok(Progress::BufError),
        Ok(flate2::Status::StreamEnd) => Ok(Progress::StreamEnd),
        Err(e) => Err(e),
    }
}

/// flate2's inflate stream, with what it has done since it was made: the
/// compressed bytes taken, the bytes made, whether the stream has ended and
/// whether it reported an error. Only the items below, each of which makes
/// one call into flate2, touch it.
pub struct Inflater {
    stream: flate2::Decompress,
    fed: Ghost<Seq<u8>>,
    out: Ghost<Seq<u8>>,
    ended: Ghost<bool>,
    failed: Ghost<bool>,
}

impl Inflater {
    /// Compressed bytes taken.
    pub closed spec fn fed(&self) -> Seq<u8> {
        self.fed@
    }

    /// Bytes made.
    pub closed spec fn out(&self) -> Seq<u8> {
        self.out@
    }

    /// The stream has reported its end.
    pub closed spec fn ended(&self) -> bool {
        self.ended@
    }

    /// The stream has reported an error.
    pub closed spec fn failed(&self) -> bool {
        self.failed@
    }
}

/// Relies on flate2::Decompress::new: a fresh zlib-framed inflate stream.
#[verifier::external_body]
pub(crate) fn inflate_new() -> (r: Inflater)
    ensures
        r.fed() == Seq::<u8>::empty(),
        r.out() == Seq::<u8>::empty(),
        !r.ended(),
        !r.failed(),
{
    Inflater {
        stream: flate2::Decompress::new(true),
        fed: Ghost(Seq::empty()),
        out: Ghost(Seq::empty()),
        ended: Ghost(false),
        failed: Ghost(false),
    }
}

/// Relies on flate2::Decompress::total_in.
#[verifier::external_body]
pub(crate) fn inflate_total_in(d: &Inflater) -> (r: u64)
    ensures
        r == d.fed().len(),
{
    d.stream.total_in()
}

/// Relies on flate2::Decompress::total_out.
#[verifier::external_body]
pub(crate) fn inflate_total_out(d: &Inflater) -> (r: u64)
    ensures
        r == d.out().len(),
{
    d.stream.total_out()
}

/// Relies on flate2::Decompress::decompress with the pure-Rust backend
/// (miniz_oxide's `inflate`, no flush): it takes a prefix of the input and
/// writes a prefix of the output, and what it has made is always a prefix of
/// the decoding of what it has taken; once the stream has ended, it is that
/// whole decoding, which bytes after the end do not change. On some input,
/// it reports a data error, the end of the stream, or progress (some input taken or some
/// output made); never a buffer error. An error is final.
#[verifier::external_body]
pub(crate) fn inflate_step(d: &mut Inflater, input: &[u8], output: &mut [u8]) -> (r:
    Result<Progress, flate2::DecompressError>)
    requires
        old(output)@.len() > 0,
        !old(d).ended(),
        !old(d).failed(),
        old(d).fed().len() + input@.len() <= u64::MAX,
        old(d).out().len() + old(output)@.len() <= u64::MAX,
    ensures
        final(output)@.len() == old(output)@.len(),
        final(d).fed().len() <= old(d).fed().len() + input@.len(),
        final(d).fed() == old(d).fed() + input@.subrange(0, final(d).fed().len() - old(d).fed().len()),
        final(d).out().len() <= old(d).out().len() + old(output)@.len(),
        final(d).out() == old(d).out() + final(output)@.subrange(0, final(d).out().len() - old(d).out().len()),
        is_prefix(final(d).out(), inflated(final(d).fed())),
        final(d).failed() == (r is Err),
        final(d).ended() == (r matches Ok(Progress::StreamEnd)),
        final(d).ended() ==> final(d).out() == inflated(final(d).fed())
            && forall|more: Seq<u8>| #[trigger] inflated(final(d).fed() + more) == inflated(final(d).fed()),
        input@.len() > 0 ==> r is Err || (r matches Ok(Progress::StreamEnd)) || ((r matches Ok(Progress::Running))
            && (final(d).fed().len() > old(d).fed().len() || final(d).out().len() > old(d).out().len())),
{
    match d.stream.decompress(input, output, flate2::FlushDecompress::None) {
        Ok(flate2::Status::Ok) => Ok(Progress::Running),
        Ok(flate2::Status::BufError) => Ok(Progress::BufError),
        Ok(flate2::Status::StreamEnd) => Ok(Progress::StreamEnd),
        Err(e) => Err(e),
    }
}

/// Relies on std::time::Instant::now, the current instant.
pub assume_specification[ std::time::Instant::now ]() -> std::time::Instant;

/// Relies on std::time::Instant::elapsed, read as whole microseconds.
#[verifier::external_body]
pub(crate) fn micros_since(start: &std::time::Instant) -> (r: u128) {
    start.elapsed().as_micros()
}

/// `a + b`, held at `u64::MAX`.
pub open spec fn saturating(a: nat, b: nat) -> nat {
    if a + b > u64::MAX { u64::MAX as nat } else { a + b }
}

/// Saturating addition in two steps is saturating addition of the sum.
pub proof fn lemma_saturating_assoc(a: nat, b: nat, c: nat)
    ensures
        saturating(saturating(a, b), c) == saturating(a, b + c),
{
}

/// Adds a time span to a running total of microseconds, saturating.
pub fn add_micros(total: u64, span: u128) -> (r: u64)
    ensures
        r == if total + span > u64::MAX { u64::MAX as int } else { total + span },
{
    if span >= (u64::MAX - total) as u128 {
        u64::MAX
    } else {
        total + span as u64
    }
}

} // verus!
