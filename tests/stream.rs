use edge_physics::compressor::{Compressor, StreamError, CHUNK_SIZE};
use edge_physics::decompressor::{Decompressor, ReadStep};
use edge_physics::frame::{FrameError, Header, HEADER_LEN};

/// Compresses `payload` as one message, written in pieces of `piece` bytes.
fn compress_message(c: &mut Compressor, out: &mut Vec<u8>, payload: &[u8], piece: usize) {
    let mut pos = 0;
    while pos < payload.len() {
        let end = usize::min(pos + piece, payload.len());
        let n = c.write(out, &payload[pos..end]).unwrap();
        assert!(n > 0);
        pos += n;
    }
    c.flush(out).unwrap();
}

/// Reads one message from `wire` starting at `*at`, through the state
/// machine, and then skips to the end of its frames.
fn decompress_message(wire: &[u8], at: &mut usize, buf_len: usize) -> Vec<u8> {
    let mut d = Decompressor::new();
    let mut out = Vec::new();
    let mut buf = vec![0u8; buf_len];
    loop {
        match d.read(&mut buf).unwrap() {
            ReadStep::Produced(n) => out.extend_from_slice(&buf[..n]),
            ReadStep::NeedHeader => {
                let mut h = [0u8; 5];
                h.copy_from_slice(&wire[*at..*at + HEADER_LEN]);
                *at += HEADER_LEN;
                d.supply_header(h).unwrap();
            }
            ReadStep::NeedPayload(n) => {
                let take = usize::min(n, wire.len() - *at);
                assert!(take > 0, "connection ended inside a frame");
                d.supply_payload(wire[*at..*at + take].to_vec());
                *at += take;
            }
            ReadStep::EndOfMessage => break,
        }
    }
    loop {
        match d.finish_step() {
            ReadStep::NeedHeader => {
                let mut h = [0u8; 5];
                h.copy_from_slice(&wire[*at..*at + HEADER_LEN]);
                *at += HEADER_LEN;
                d.supply_header(h).unwrap();
            }
            ReadStep::NeedPayload(n) => {
                let take = usize::min(n, wire.len() - *at);
                d.supply_payload(wire[*at..*at + take].to_vec());
                *at += take;
            }
            _ => break,
        }
    }
    out
}

fn sample(len: usize) -> Vec<u8> {
    let mut state: u32 = 12345;
    (0..len)
        .map(|i| {
            state = state.wrapping_mul(1103515245).wrapping_add(12345);
            if i % 3 == 0 { (state >> 16) as u8 } else { (i % 7) as u8 }
        })
        .collect()
}

fn round_trip(len: usize, piece: usize, buf_len: usize) {
    let payload = sample(len);
    let mut c = Compressor::new(6);
    let mut wire = Vec::new();
    compress_message(&mut c, &mut wire, &payload, piece);
    let mut at = 0;
    let back = decompress_message(&wire, &mut at, buf_len);
    assert_eq!(back, payload);
    assert_eq!(at, wire.len());
}

#[test]
fn header_bytes_are_little_endian_then_flag() {
    let h = Header { length: 0x01020304, finished: true };
    assert_eq!(h.to_bytes(), [4, 3, 2, 1, 1]);
    let h = Header { length: 8192, finished: false };
    assert_eq!(h.to_bytes(), [0, 32, 0, 0, 0]);
}

#[test]
fn header_decodes_what_it_encodes() {
    for (length, finished) in [(0u32, false), (5, true), (u32::MAX, true), (70000, false)] {
        let h = Header { length, finished };
        assert_eq!(Header::from_bytes(h.to_bytes()), Ok(h));
    }
}

#[test]
fn header_with_bad_flag_is_refused() {
    assert_eq!(Header::from_bytes([1, 0, 0, 0, 2]), Err(FrameError::InvalidFlag(2)));
}

#[test]
fn round_trip_empty_payload() {
    round_trip(0, 1, 64);
}

#[test]
fn round_trip_small_payload() {
    round_trip(10, 3, 4);
}

#[test]
fn round_trip_chunk_sized_payload() {
    round_trip(CHUNK_SIZE, CHUNK_SIZE, CHUNK_SIZE);
}

#[test]
fn round_trip_large_payload() {
    round_trip(300_000, 10_000, 1000);
}

#[test]
fn round_trip_incompressible_payload() {
    let payload: Vec<u8> = (0..50_000u32).map(|i| (i.wrapping_mul(2654435761) >> 13) as u8).collect();
    let mut c = Compressor::new(1);
    let mut wire = Vec::new();
    compress_message(&mut c, &mut wire, &payload, 4096);
    let mut at = 0;
    assert_eq!(decompress_message(&wire, &mut at, 777), payload);
    assert_eq!(at, wire.len());
}

#[test]
fn write_of_nothing_takes_nothing() {
    let mut c = Compressor::new(3);
    let mut wire = Vec::new();
    assert_eq!(c.write(&mut wire, &[]), Ok(0));
    assert!(wire.is_empty());
}

#[test]
fn write_takes_input_and_counts_it() {
    let mut c = Compressor::new(3);
    let mut wire = Vec::new();
    let n = c.write(&mut wire, &[7u8; 100]).unwrap();
    assert!(n > 0 && n <= 100);
    assert_eq!(c.total_in(), n as u64);
}

#[test]
fn second_flush_adds_no_frames() {
    let mut c = Compressor::new(6);
    let mut wire = Vec::new();
    c.write(&mut wire, b"some payload").unwrap();
    c.flush(&mut wire).unwrap();
    let after_first = wire.clone();
    c.flush(&mut wire).unwrap();
    assert_eq!(wire, after_first);
}

#[test]
fn flush_ends_with_a_final_frame() {
    let mut c = Compressor::new(6);
    let mut wire = Vec::new();
    c.write(&mut wire, b"abc").unwrap();
    c.flush(&mut wire).unwrap();
    let mut at = 0;
    let mut last = None;
    while at < wire.len() {
        let mut h = [0u8; 5];
        h.copy_from_slice(&wire[at..at + 5]);
        let header = Header::from_bytes(h).unwrap();
        at += 5 + header.length as usize;
        last = Some(header);
    }
    assert_eq!(at, wire.len());
    assert!(last.unwrap().finished);
}

#[test]
fn back_to_back_messages_on_one_stream() {
    let first = sample(20_000);
    let second = b"second message".to_vec();
    let mut c = Compressor::new(6);
    let mut wire = Vec::new();
    compress_message(&mut c, &mut wire, &first, 5000);
    compress_message(&mut c, &mut wire, &second, 5);
    let mut at = 0;
    assert_eq!(decompress_message(&wire, &mut at, 100), first);
    assert_eq!(decompress_message(&wire, &mut at, 100), second);
    assert_eq!(at, wire.len());
}

#[test]
fn finish_skips_an_unread_message() {
    let mut c = Compressor::new(6);
    let mut wire = Vec::new();
    compress_message(&mut c, &mut wire, &sample(50_000), 50_000);
    compress_message(&mut c, &mut wire, b"next", 4);
    let mut d = Decompressor::new();
    let mut at = 0;
    loop {
        match d.finish_step() {
            ReadStep::NeedHeader => {
                let mut h = [0u8; 5];
                h.copy_from_slice(&wire[at..at + 5]);
                at += 5;
                d.supply_header(h).unwrap();
            }
            ReadStep::NeedPayload(n) => {
                let take = usize::min(n, wire.len() - at);
                d.supply_payload(wire[at..at + take].to_vec());
                at += take;
            }
            _ => break,
        }
    }
    assert_eq!(decompress_message(&wire, &mut at, 64), b"next".to_vec());
}

#[test]
fn decompressor_asks_for_a_header_first() {
    let mut d = Decompressor::new();
    let mut buf = [0u8; 16];
    assert_eq!(d.read(&mut buf), Ok(ReadStep::NeedHeader));
    d.supply_header(Header { length: 20000, finished: false }.to_bytes()).unwrap();
    assert_eq!(d.read(&mut buf), Ok(ReadStep::NeedPayload(CHUNK_SIZE)));
}

#[test]
fn decompressor_refuses_a_bad_flag() {
    let mut d = Decompressor::new();
    assert_eq!(d.supply_header([3, 0, 0, 0, 9]), Err(StreamError::BadHeader(9)));
}

#[test]
fn decompressor_reports_corrupt_data() {
    let mut d = Decompressor::new();
    let mut buf = [0u8; 64];
    d.supply_header(Header { length: 4, finished: true }.to_bytes()).unwrap();
    d.supply_payload(vec![0xff, 0xff, 0xff, 0xff]);
    assert_eq!(d.read(&mut buf), Err(StreamError::Primitive));
}

#[test]
fn truncated_stream_is_reported() {
    let mut c = Compressor::new(6);
    let mut wire = Vec::new();
    compress_message(&mut c, &mut wire, &sample(1000), 1000);
    // Keep only the compressed bytes of the first half, framed as final.
    let mut h = [0u8; 5];
    h.copy_from_slice(&wire[0..5]);
    let header = Header::from_bytes(h).unwrap();
    let half = (header.length / 2).max(1);
    let mut d = Decompressor::new();
    d.supply_header(Header { length: half, finished: true }.to_bytes()).unwrap();
    d.supply_payload(wire[5..5 + half as usize].to_vec());
    let mut buf = vec![0u8; 4096];
    let mut result = d.read(&mut buf);
    while let Ok(ReadStep::Produced(_)) = result {
        result = d.read(&mut buf);
    }
    assert_eq!(result, Err(StreamError::Truncated));
}

#[test]
fn counters_follow_the_stream() {
    let payload = sample(10_000);
    let mut c = Compressor::new(6);
    let mut wire = Vec::new();
    compress_message(&mut c, &mut wire, &payload, 10_000);
    assert_eq!(c.total_in(), payload.len() as u64);
    let mut at = 0;
    let mut d = Decompressor::new();
    let mut buf = vec![0u8; 512];
    let mut produced = 0u64;
    loop {
        match d.read(&mut buf).unwrap() {
            ReadStep::Produced(n) => produced += n as u64,
            ReadStep::NeedHeader => {
                let mut h = [0u8; 5];
                h.copy_from_slice(&wire[at..at + 5]);
                at += 5;
                d.supply_header(h).unwrap();
            }
            ReadStep::NeedPayload(n) => {
                let take = usize::min(n, wire.len() - at);
                d.supply_payload(wire[at..at + take].to_vec());
                at += take;
            }
            ReadStep::EndOfMessage => break,
        }
    }
    assert_eq!(d.total_out(), produced);
    assert_eq!(produced, payload.len() as u64);
    assert_eq!(d.total_in(), c.total_out());
}

#[test]
fn compression_is_transparent_to_encoded_values() {
    let config = bincode::config::standard();
    let value: (Vec<(u64, (u32, u32))>, Vec<u64>, u32) =
        ((0..500u64).map(|i| (i << 32 | 7, (i as u32, 1))).collect(), vec![1, 2, 3], 16);
    let plain = bincode::serde::encode_to_vec(&value, config).unwrap();
    let mut c = Compressor::new(3);
    let mut wire = Vec::new();
    compress_message(&mut c, &mut wire, &plain, 1000);
    let mut at = 0;
    let back = decompress_message(&wire, &mut at, 300);
    let (decoded, _): ((Vec<(u64, (u32, u32))>, Vec<u64>, u32), usize) =
        bincode::serde::decode_from_slice(&back, config).unwrap();
    let (direct, _): ((Vec<(u64, (u32, u32))>, Vec<u64>, u32), usize) =
        bincode::serde::decode_from_slice(&plain, config).unwrap();
    assert_eq!(decoded, direct);
    assert_eq!(decoded, value);
}

#[test]
fn shutdown_message_leaves_no_bytes_behind() {
    let config = bincode::config::standard();
    // A request enum's second variant, as the client sends it to end a session.
    let shutdown = bincode::serde::encode_to_vec(1u32, config).unwrap();
    let mut c = Compressor::new(6);
    let mut wire = Vec::new();
    compress_message(&mut c, &mut wire, &shutdown, 16);
    let mut at = 0;
    let back = decompress_message(&wire, &mut at, 1);
    let (tag, _): (u32, usize) = bincode::serde::decode_from_slice(&back, config).unwrap();
    assert_eq!(tag, 1);
    assert_eq!(at, wire.len());
}

#[test]
fn only_a_final_frame_may_be_empty() {
    let mut c = Compressor::new(9);
    let mut wire = Vec::new();
    compress_message(&mut c, &mut wire, &sample(40_000), 3000);
    let mut at = 0;
    let mut payload_total = 0u64;
    while at < wire.len() {
        let mut h = [0u8; 5];
        h.copy_from_slice(&wire[at..at + 5]);
        let header = Header::from_bytes(h).unwrap();
        assert!(header.length > 0 || header.finished);
        assert!(header.length as usize <= CHUNK_SIZE);
        payload_total += header.length as u64;
        at += 5 + header.length as usize;
    }
    assert_eq!(payload_total, c.total_out());
}

#[test]
fn round_trip_of_one_chunk_exactly() {
    let payload: Vec<u8> = (0..8192usize).map(|i| (i % 251) as u8).collect();
    let mut c = Compressor::new(6);
    let mut wire = Vec::new();
    compress_message(&mut c, &mut wire, &payload, 8192);
    let mut at = 0;
    assert_eq!(decompress_message(&wire, &mut at, 8192), payload);
    assert_eq!(at, wire.len());
}
