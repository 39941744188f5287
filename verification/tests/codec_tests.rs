use equalizer::codec::{
    calculate_packet_size, create_packet_header, decode_frame, encode_frame, CodecError,
    FrameKind, FIRST_BYTE, HEADER_SIZE, MAX_BODY_SIZE, TYPE_DATA, TYPE_FILLER,
};

#[test]
fn header_layout() {
    let header = create_packet_header(TYPE_DATA, 0x0201);
    assert_eq!(header, vec![0x54, 0x55, 0x01, 0x02]);
    let header = create_packet_header(TYPE_FILLER, 1);
    assert_eq!(header, vec![0x54, 0x56, 0x01, 0x00]);
    let header = create_packet_header(TYPE_DATA, MAX_BODY_SIZE);
    assert_eq!(header, vec![0x54, 0x55, 0x00, 0x28]);
}

#[test]
fn packet_size_parses_little_endian() {
    let buf = [FIRST_BYTE, TYPE_DATA, 0x01, 0x02];
    assert_eq!(calculate_packet_size(&buf).unwrap(), 0x0201);
    let buf = [FIRST_BYTE, TYPE_DATA, 0xFF, 0x00];
    assert_eq!(calculate_packet_size(&buf).unwrap(), 255);
}

#[test]
fn packet_size_rejects_zero_and_oversize() {
    let buf = [FIRST_BYTE, TYPE_DATA, 0x00, 0x00];
    assert_eq!(calculate_packet_size(&buf), Err(CodecError::ZeroLength));
    // 0x2801 little endian = 10241 = MAX_BODY_SIZE + 1
    let buf = [FIRST_BYTE, TYPE_DATA, 0x01, 0x28];
    assert_eq!(calculate_packet_size(&buf), Err(CodecError::Oversize));
}

fn round_trip(kind: FrameKind, payload: &[u8]) {
    let wire = encode_frame(kind, payload);
    assert_eq!(wire.len(), HEADER_SIZE + payload.len());
    let (frame, next) = decode_frame(&wire, 0).unwrap();
    assert_eq!(frame.kind, kind);
    assert_eq!(frame.payload, payload.to_vec());
    assert_eq!(next, wire.len());
}

#[test]
fn frame_round_trip_smallest() {
    round_trip(FrameKind::Data, &[0x7F]);
    round_trip(FrameKind::Filler, &[0x00]);
}

#[test]
fn frame_round_trip_mid_sizes() {
    let payload: Vec<u8> = (0..1024u32).map(|i| (i % 251) as u8).collect();
    round_trip(FrameKind::Data, &payload);
    round_trip(FrameKind::Filler, &payload);
    let payload: Vec<u8> = (0..255u32).map(|i| i as u8).collect();
    round_trip(FrameKind::Data, &payload);
    let payload: Vec<u8> = (0..256u32).map(|i| (255 - i) as u8).collect();
    round_trip(FrameKind::Filler, &payload);
}

#[test]
fn frame_round_trip_largest() {
    let payload: Vec<u8> = (0..MAX_BODY_SIZE as u32).map(|i| (i % 256) as u8).collect();
    round_trip(FrameKind::Data, &payload);
    round_trip(FrameKind::Filler, &payload);
}

#[test]
fn decode_rejects_wrong_marker() {
    let mut wire = encode_frame(FrameKind::Data, &[1, 2, 3]);
    wire[0] = 0x55;
    assert_eq!(decode_frame(&wire, 0), Err(CodecError::BadMarker));
}

#[test]
fn decode_rejects_zero_length() {
    let wire = vec![FIRST_BYTE, TYPE_DATA, 0x00, 0x00, 0xAA];
    assert_eq!(decode_frame(&wire, 0), Err(CodecError::ZeroLength));
}

#[test]
fn decode_rejects_oversize_length() {
    // Declares 10241 bytes of body.
    let wire = vec![FIRST_BYTE, TYPE_DATA, 0x01, 0x28];
    assert_eq!(decode_frame(&wire, 0), Err(CodecError::Oversize));
}

#[test]
fn decode_rejects_unknown_type() {
    let wire = vec![FIRST_BYTE, 0x57, 0x01, 0x00, 0xAA];
    assert_eq!(decode_frame(&wire, 0), Err(CodecError::UnknownType));
}

#[test]
fn decode_reports_truncation() {
    // Too short for a header.
    let wire = vec![FIRST_BYTE, TYPE_DATA, 0x02];
    assert_eq!(decode_frame(&wire, 0), Err(CodecError::Truncated));
    // Header fine, but one body byte missing.
    let wire = vec![FIRST_BYTE, TYPE_DATA, 0x02, 0x00, 0xAA];
    assert_eq!(decode_frame(&wire, 0), Err(CodecError::Truncated));
}

#[test]
fn decode_consumes_frames_in_sequence() {
    let mut wire = encode_frame(FrameKind::Data, &[1, 2, 3]);
    wire.extend(encode_frame(FrameKind::Filler, &[9, 8]));
    let (first, next) = decode_frame(&wire, 0).unwrap();
    assert_eq!(first.kind, FrameKind::Data);
    assert_eq!(first.payload, vec![1, 2, 3]);
    let (second, end) = decode_frame(&wire, next).unwrap();
    assert_eq!(second.kind, FrameKind::Filler);
    assert_eq!(second.payload, vec![9, 8]);
    assert_eq!(end, wire.len());
}
