//! Frame headers of the compressed stream: each chunk of compressed bytes
//! travels behind a 5-byte header holding its length (4 bytes, little
//! endian) and a flag that marks the last chunk of a logical message.
use vstd::prelude::*;

verus! {

/// Number of bytes in an encoded frame header.
pub const HEADER_LEN: usize = 5;

/// Why a frame header could not be decoded.
#[derive(Debug, PartialEq, Eq, Structural)]
pub enum FrameError {
    /// The flag byte was neither 0 nor 1.
    InvalidFlag(u8),
}

/// The header in front of each chunk of compressed payload.
#[derive(Debug, Clone, Copy, PartialEq, Eq, Structural)]
pub struct Header {
    pub length: u32,
    pub finished: bool,
}

/// The four little-endian bytes of `n`.
pub open spec fn le_bytes(n: u32) -> Seq<u8> {
    seq![n as u8, (n >> 8u32) as u8, (n >> 16u32) as u8, (n >> 24u32) as u8]
}

/// The integer whose little-endian bytes are `b0 b1 b2 b3`.
pub open spec fn le_value(b0: u8, b1: u8, b2: u8, b3: u8) -> u32 {
    (b0 as u32) | ((b1 as u32) << 8u32) | ((b2 as u32) << 16u32) | ((b3 as u32) << 24u32)
}

/// The encoded form of a header: length, then 1 for a final chunk or 0.
pub open spec fn header_bytes(length: u32, finished: bool) -> Seq<u8> {
    le_bytes(length) + seq![if finished { 1u8 } else { 0u8 }]
}

/// A frame as it travels: its header and the payload bytes behind it.
pub struct Frame {
    pub header: Header,
    pub payload: Seq<u8>,
}

impl Frame {
    /// The header announces exactly the payload that follows it.
    pub open spec fn complete(self) -> bool {
        self.payload.len() == self.header.length
    }

    pub open spec fn bytes(self) -> Seq<u8> {
        self.header.spec_bytes() + self.payload
    }
}

/// The bytes of a sequence of frames, one after the other.
pub open spec fn frames_bytes(fs: Seq<Frame>) -> Seq<u8>
    decreases fs.len(),
{
    if fs.len() == 0 {
        Seq::empty()
    } else {
        frames_bytes(fs.drop_last()) + fs.last().bytes()
    }
}

/// The payloads of a sequence of frames, one after the other.
pub open spec fn frames_payload(fs: Seq<Frame>) -> Seq<u8>
    decreases fs.len(),
{
    if fs.len() == 0 {
        Seq::empty()
    } else {
        frames_payload(fs.drop_last()) + fs.last().payload
    }
}

/// The lengths that the headers of `fs` announce, added up.
pub open spec fn frames_length(fs: Seq<Frame>) -> nat
    decreases fs.len(),
{
    if fs.len() == 0 {
        0
    } else {
        frames_length(fs.drop_last()) + fs.last().header.length as nat
    }
}

/// Every frame of `fs` carries exactly the payload its header announces.
pub open spec fn complete_frames(fs: Seq<Frame>) -> bool {
    forall|i: int| 0 <= i < fs.len() ==> (#[trigger] fs[i]).complete()
}

/// Of complete frames, the announced lengths add up to the payload's.
pub proof fn lemma_frames_length(fs: Seq<Frame>)
    requires
        complete_frames(fs),
    ensures
        frames_length(fs) == frames_payload(fs).len(),
    decreases fs.len(),
{
    if fs.len() > 0 {
        assert(complete_frames(fs.drop_last())) by {
            assert forall|i: int| 0 <= i < fs.drop_last().len() implies (#[trigger] fs.drop_last()[i]).complete() by {
                assert(fs.drop_last()[i] == fs[i]);
            }
        }
        lemma_frames_length(fs.drop_last());
        assert(fs[fs.len() - 1].complete());
    }
}

/// A logical message: complete frames of which only the last one, and that
/// one surely, is marked final.
pub open spec fn is_message(fs: Seq<Frame>) -> bool {
    &&& fs.len() > 0
    &&& forall|i: int| 0 <= i < fs.len() ==> (#[trigger] fs[i]).complete()
    &&& forall|i: int| 0 <= i < fs.len() - 1 ==> !(#[trigger] fs[i]).header.finished
    &&& fs.last().header.finished
}

impl Header {
    pub open spec fn spec_bytes(self) -> Seq<u8> {
        header_bytes(self.length, self.finished)
    }

    /// Encodes the header as 4 little-endian length bytes and the flag byte.
    pub fn to_bytes(&self) -> (r: [u8; 5])
        ensures
            r@ == self.spec_bytes(),
    {
        let n = self.length;
        let flag: u8 = if self.finished { 1 } else { 0 };
        let r: [u8; 5] = [n as u8, (n >> 8u32) as u8, (n >> 16u32) as u8, (n >> 24u32) as u8, flag];
        assert(r@ =~= self.spec_bytes());
        r
    }

    /// Decodes a header; a flag byte other than 0 or 1 is refused.
    pub fn from_bytes(buf: [u8; 5]) -> (r: Result<Header, FrameError>)
        ensures
            buf[4] > 1 ==> r == Err::<Header, FrameError>(FrameError::InvalidFlag(buf[4])),
            buf[4] <= 1 ==> r is Ok && r->Ok_0.spec_bytes() == buf@,
    {
        let finished = match buf[4] {
            0 => false,
            1 => true,
            kind => {
                return Err(FrameError::InvalidFlag(kind));
            },
        };
        let length = (buf[0] as u32) | ((buf[1] as u32) << 8u32) | ((buf[2] as u32) << 16u32) | ((
        buf[3] as u32) << 24u32);
        let h = Header { length, finished };
        proof {
            lemma_le_bytes_of_value(buf[0], buf[1], buf[2], buf[3]);
            assert(h.spec_bytes() =~= buf@);
        }
        Ok(h)
    }
}

/// Reading back the bytes of a length gives the length.
pub proof fn lemma_le_value_of_bytes(n: u32)
    ensures
        le_value(le_bytes(n)[0], le_bytes(n)[1], le_bytes(n)[2], le_bytes(n)[3]) == n,
{
    let b0 = n as u8;
    let b1 = (n >> 8u32) as u8;
    let b2 = (n >> 16u32) as u8;
    let b3 = (n >> 24u32) as u8;
    assert(((b0 as u32) | ((b1 as u32) << 8u32) | ((b2 as u32) << 16u32) | ((b3 as u32) << 24u32))
        == n) by (bit_vector)
        requires
            b0 == n as u8,
            b1 == (n >> 8u32) as u8,
            b2 == (n >> 16u32) as u8,
            b3 == (n >> 24u32) as u8,
    ;
}

/// Writing out a decoded length gives back the four bytes it came from.
pub proof fn lemma_le_bytes_of_value(b0: u8, b1: u8, b2: u8, b3: u8)
    ensures
        le_bytes(le_value(b0, b1, b2, b3)) == seq![b0, b1, b2, b3],
{
    let n = le_value(b0, b1, b2, b3);
    assert(n as u8 == b0 && (n >> 8u32) as u8 == b1 && (n >> 16u32) as u8 == b2 && (n >> 24u32) as u8
        == b3) by (bit_vector)
        requires
            n == (b0 as u32) | ((b1 as u32) << 8u32) | ((b2 as u32) << 16u32) | ((b3 as u32) << 24u32),
    ;
    assert(le_bytes(n) =~= seq![b0, b1, b2, b3]);
}

/// A header survives encoding and decoding unchanged.
pub proof fn lemma_header_round_trip(h: Header)
    ensures
        h.spec_bytes().len() == HEADER_LEN,
        le_value(h.spec_bytes()[0], h.spec_bytes()[1], h.spec_bytes()[2], h.spec_bytes()[3])
            == h.length,
        h.spec_bytes()[4] <= 1,
        (h.spec_bytes()[4] == 1) == h.finished,
{
    lemma_le_value_of_bytes(h.length);
}

/// Reads one logical message from the front of `bytes`: frames up to and
/// including the first final one. Gives the payloads joined together and
/// the number of bytes the message takes, or `None` if the bytes end first
/// or hold an invalid flag.
pub open spec fn parse_message(bytes: Seq<u8>) -> Option<(Seq<u8>, nat)>
    decreases bytes.len(),
{
    if bytes.len() < HEADER_LEN {
        None
    } else {
        let len = le_value(bytes[0], bytes[1], bytes[2], bytes[3]) as int;
        let flag = bytes[4];
        if flag > 1 || bytes.len() < HEADER_LEN + len {
            None
        } else {
            let payload = bytes.subrange(HEADER_LEN as int, HEADER_LEN + len);
            if flag == 1 {
                Some((payload, (HEADER_LEN + len) as nat))
            } else {
                match parse_message(bytes.subrange(HEADER_LEN + len, bytes.len() as int)) {
                    Some((p, n)) => Some((payload + p, (HEADER_LEN + len + n) as nat)),
                    None => None,
                }
            }
        }
    }
}

/// Appending a frame appends its bytes and its payload.
pub proof fn lemma_frames_push(fs: Seq<Frame>, f: Frame)
    ensures
        frames_bytes(fs.push(f)) == frames_bytes(fs) + f.bytes(),
        frames_payload(fs.push(f)) == frames_payload(fs) + f.payload,
{
    assert(fs.push(f).drop_last() =~= fs);
}

/// Reading a message looks at its own bytes only: what follows them does
/// not change the result.
pub proof fn lemma_parse_extend(x: Seq<u8>, y: Seq<u8>)
    requires
        parse_message(x) is Some,
    ensures
        parse_message(x + y) == parse_message(x),
    decreases x.len(),
{
    let xy = x + y;
    let len = le_value(x[0], x[1], x[2], x[3]) as int;
    assert(xy[0] == x[0] && xy[1] == x[1] && xy[2] == x[2] && xy[3] == x[3] && xy[4] == x[4]);
    assert(xy.subrange(HEADER_LEN as int, HEADER_LEN + len) =~= x.subrange(HEADER_LEN as int, HEADER_LEN + len));
    if x[4] == 0 {
        let rest = x.subrange(HEADER_LEN + len, x.len() as int);
        assert(xy.subrange(HEADER_LEN + len, xy.len() as int) =~= rest + y);
        lemma_parse_extend(rest, y);
    }
}

/// The bytes of frames are those of the first frame, then of the rest.
pub proof fn lemma_frames_bytes_front(fs: Seq<Frame>)
    requires
        fs.len() > 0,
    ensures
        frames_bytes(fs) == fs[0].bytes() + frames_bytes(fs.skip(1)),
        frames_payload(fs) == fs[0].payload + frames_payload(fs.skip(1)),
    decreases fs.len(),
{
    if fs.len() == 1 {
        assert(fs.drop_last() =~= Seq::<Frame>::empty());
        assert(fs.skip(1) =~= Seq::<Frame>::empty());
        assert(frames_bytes(fs.drop_last()) == Seq::<u8>::empty());
        assert(frames_payload(fs.drop_last()) == Seq::<u8>::empty());
        assert(frames_bytes(fs.skip(1)) == Seq::<u8>::empty());
        assert(frames_payload(fs.skip(1)) == Seq::<u8>::empty());
        assert(fs.last() == fs[0]);
        assert(frames_bytes(fs) =~= fs[0].bytes());
        assert(frames_payload(fs) =~= fs[0].payload);
    } else {
        lemma_frames_bytes_front(fs.drop_last());
        assert(fs.drop_last()[0] == fs[0]);
        assert(fs.drop_last().skip(1) =~= fs.skip(1).drop_last());
        assert(fs.skip(1).last() == fs.last());
        assert(frames_bytes(fs) =~= fs[0].bytes() + frames_bytes(fs.skip(1)));
        assert(frames_payload(fs) =~= fs[0].payload + frames_payload(fs.skip(1)));
    }
}

/// Framing round trip: reading a logical message from the bytes of its
/// frames, whatever follows them, gives back exactly the payload that was
/// framed and stops right after the final frame.
pub proof fn framing_round_trip(fs: Seq<Frame>, tail: Seq<u8>)
    requires
        is_message(fs),
    ensures
        parse_message(frames_bytes(fs) + tail) == Some((frames_payload(fs), frames_bytes(fs).len())),
    decreases fs.len(),
{
    lemma_frames_bytes_front(fs);
    let f = fs[0];
    let rest = fs.skip(1);
    let bytes = frames_bytes(fs) + tail;
    lemma_header_round_trip(f.header);
    let hb = f.header.spec_bytes();
    assert(f.complete());
    assert(bytes =~= hb + (f.payload + (frames_bytes(rest) + tail)));
    assert(bytes[0] == hb[0] && bytes[1] == hb[1] && bytes[2] == hb[2] && bytes[3] == hb[3] && bytes[4] == hb[4]);
    let len = f.header.length as int;
    assert(bytes.subrange(HEADER_LEN as int, HEADER_LEN + len) =~= f.payload);
    if f.header.finished {
        if fs.len() > 1 {
            assert(!fs[0].header.finished);
        }
        assert(rest =~= Seq::<Frame>::empty());
        assert(frames_bytes(rest) =~= Seq::<u8>::empty());
        assert(frames_payload(rest) =~= Seq::<u8>::empty());
        assert(frames_bytes(fs) =~= hb + f.payload);
        assert(frames_payload(fs) =~= f.payload);
    } else {
        assert(fs.len() > 1);
        assert(is_message(rest)) by {
            assert forall|i: int| 0 <= i < rest.len() implies (#[trigger] rest[i]).complete() by {
                assert(rest[i] == fs[i + 1]);
            }
            assert forall|i: int| 0 <= i < rest.len() - 1 implies !(#[trigger] rest[i]).header.finished by {
                assert(rest[i] == fs[i + 1]);
            }
            assert(rest.last() == fs.last());
        }
        framing_round_trip(rest, tail);
        assert(bytes.subrange(HEADER_LEN + len, bytes.len() as int) =~= frames_bytes(rest) + tail);
    }
}

} // verus!
