use equalizer::codec::{decode_frame, encode_frame, Frame, FrameKind};
use equalizer::splitter::{parse_identification, split_payloads, QueuedPacket, SplitterCore};

/// A small deterministic byte generator, so no outside randomness is
/// needed.
struct Lcg {
    state: u64,
}

impl Lcg {
    fn new(seed: u64) -> Lcg {
        Lcg { state: seed }
    }

    fn next(&mut self) -> u64 {
        self.state = self
            .state
            .wrapping_mul(6364136223846793005)
            .wrapping_add(1442695040888963407);
        self.state >> 16
    }

    fn bytes(&mut self, n: usize) -> Vec<u8> {
        (0..n).map(|_| (self.next() % 256) as u8).collect()
    }
}

#[test]
fn queued_packet_copies_bytes() {
    let packet = QueuedPacket::copy_from(&[1, 2, 3, 4]);
    assert_eq!(packet.buf, vec![1, 2, 3, 4]);
    assert_eq!(packet.len, 4);
}

#[test]
fn own_kind_is_handed_straight_out() {
    let mut core = SplitterCore::new();
    let frame = Frame { kind: FrameKind::Data, payload: vec![5, 6, 7] };
    let out = core.route(FrameKind::Data, &frame);
    assert_eq!(out, Some(vec![5, 6, 7]));
    assert_eq!(core.take_pending(FrameKind::Data), None);
    assert_eq!(core.take_pending(FrameKind::Filler), None);
}

#[test]
fn other_kind_is_parked_not_lost() {
    let mut core = SplitterCore::new();
    let frame = Frame { kind: FrameKind::Filler, payload: vec![9] };
    let out = core.route(FrameKind::Data, &frame);
    assert_eq!(out, None);
    // The filler channel finds the body waiting, once, in order.
    assert_eq!(core.take_pending(FrameKind::Filler), Some(vec![9]));
    assert_eq!(core.take_pending(FrameKind::Filler), None);
}

#[test]
fn parked_frames_keep_their_order() {
    let mut core = SplitterCore::new();
    for i in 0..4u8 {
        let frame = Frame { kind: FrameKind::Filler, payload: vec![i, i + 1] };
        assert_eq!(core.route(FrameKind::Data, &frame), None);
    }
    for i in 0..4u8 {
        assert_eq!(core.take_pending(FrameKind::Filler), Some(vec![i, i + 1]));
    }
    assert_eq!(core.take_pending(FrameKind::Filler), None);
}

#[test]
fn multiplexing_fidelity_interleaved() {
    // N data frames and M filler frames, interleaved irregularly.
    let mut frames: Vec<Frame> = Vec::new();
    let mut data_expect: Vec<Vec<u8>> = Vec::new();
    let mut filler_expect: Vec<Vec<u8>> = Vec::new();
    let mut gen = Lcg::new(7);
    for i in 0..40u64 {
        let take_data = (gen.next() + i) % 3 != 0;
        let body_len = 1 + (gen.next() % 64) as usize;
        let body = gen.bytes(body_len);
        if take_data {
            data_expect.push(body.clone());
            frames.push(Frame { kind: FrameKind::Data, payload: body });
        } else {
            filler_expect.push(body.clone());
            frames.push(Frame { kind: FrameKind::Filler, payload: body });
        }
    }
    let (data_seen, filler_seen) = split_payloads(&frames);
    assert_eq!(data_seen, data_expect);
    assert_eq!(filler_seen, filler_expect);
}

#[test]
fn identification_payload_yields_name() {
    let payload = [0x01, b'p', b'e', b'e', b'r'];
    assert_eq!(parse_identification(&payload), Some(b"peer".to_vec()));
}

#[test]
fn identification_needs_marker_and_name() {
    assert_eq!(parse_identification(&[0x01]), None);
    assert_eq!(parse_identification(&[0x02, b'x']), None);
    assert_eq!(parse_identification(&[]), None);
}

/// End-to-end byte fidelity: two peers exchange 100 KiB each in irregular
/// chunks; everything travels as wire frames over one shared byte stream
/// per direction, interleaved with filler frames, and each side
/// reassembles exactly the bytes the other sent — no filler byte ever
/// shows up in the data stream.
#[test]
fn end_to_end_byte_fidelity() {
    let total = 100 * 1024usize;
    for (seed, filler_seed) in [(11u64, 12u64), (13, 14)] {
        let mut gen = Lcg::new(seed);
        let sent: Vec<u8> = gen.bytes(total);
        // Chunk the stream into data frames of 10..=2048 bytes and weave
        // filler frames in between.
        let mut wire: Vec<u8> = Vec::new();
        let mut expected_chunks: Vec<Vec<u8>> = Vec::new();
        let mut filler_gen = Lcg::new(filler_seed);
        let mut offset = 0usize;
        while offset < total {
            let chunk_len = (10 + (gen.next() % 2039) as usize).min(total - offset);
            let chunk = sent[offset..offset + chunk_len].to_vec();
            offset += chunk_len;
            wire.extend(encode_frame(FrameKind::Data, &chunk));
            expected_chunks.push(chunk);
            if filler_gen.next() % 2 == 0 {
                let filler_len = 1 + (filler_gen.next() % 1024) as usize;
                let filler_body = filler_gen.bytes(filler_len);
                wire.extend(encode_frame(FrameKind::Filler, &filler_body));
            }
        }
        // Decode the shared stream back into frames.
        let mut frames: Vec<Frame> = Vec::new();
        let mut pos = 0usize;
        while pos < wire.len() {
            let (frame, next) = decode_frame(&wire, pos).unwrap();
            frames.push(frame);
            pos = next;
        }
        // The data channel sees exactly the sent bytes, in order.
        let (data_chunks, _filler_chunks) = split_payloads(&frames);
        assert_eq!(data_chunks, expected_chunks);
        let received: Vec<u8> = data_chunks.into_iter().flatten().collect();
        assert_eq!(received, sent);
    }
}
