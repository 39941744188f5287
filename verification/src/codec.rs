//! Wire framing: `[0x54][type][len, little endian u16][body]`, with
//! `type` 0x55 for the data channel and 0x56 for the filler channel and
//! `len` in `[1, MAX_BODY_SIZE]`.

use vstd::prelude::*;

verus! {

pub const HEADER_SIZE: usize = 4;
pub const FIRST_BYTE: u8 = 0x54;
pub const TYPE_DATA: u8 = 0x55;
pub const TYPE_FILLER: u8 = 0x56;

/// Upper bound on a frame body, in bytes.
pub const MAX_BODY_SIZE: usize = 10240;

/// The two logical channels multiplexed over one connection.
#[derive(Clone, Copy, PartialEq, Eq, Structural, Debug)]
pub enum FrameKind {
    Data,
    Filler,
}

/// The type byte that a frame of this kind carries on the wire.
pub open spec fn spec_kind_byte(k: FrameKind) -> u8 {
    match k {
        FrameKind::Data => TYPE_DATA,
        FrameKind::Filler => TYPE_FILLER,
    }
}

/// The kind denoted by a valid type byte.
pub open spec fn spec_kind_of_byte(t: u8) -> FrameKind {
    if t == TYPE_DATA {
        FrameKind::Data
    } else {
        FrameKind::Filler
    }
}

/// One decoded frame: its channel and its body.
#[derive(PartialEq, Eq, Debug)]
pub struct Frame {
    pub kind: FrameKind,
    pub payload: Vec<u8>,
}

impl Frame {
    /// The body length is in the range the wire format allows.
    pub open spec fn wf(&self) -> bool {
        1 <= self.payload@.len() <= MAX_BODY_SIZE
    }
}

/// Everything a caller needs to know about one frame that arrived:
/// its type byte and its body size.
pub struct ReadPacketInfo {
    pub packet_type: u8,
    pub packet_size: usize,
}

/// Why a byte region does not decode to a frame.
#[derive(Clone, Copy, PartialEq, Eq, Structural, Debug)]
pub enum CodecError {
    /// The first byte is not the frame marker.
    BadMarker,
    /// The header declares a body of zero bytes.
    ZeroLength,
    /// The header declares a body larger than `MAX_BODY_SIZE`.
    Oversize,
    /// The type byte names neither channel.
    UnknownType,
    /// Fewer bytes are available than a whole frame needs.
    Truncated,
}

/// The body length declared by a frame header (little-endian u16).
pub open spec fn spec_declared_len(b: Seq<u8>) -> int {
    b[3] * 256 + b[2]
}

/// The header bytes for a frame of the given type byte and body length.
pub open spec fn spec_header(packet_type: u8, len: int) -> Seq<u8> {
    seq![FIRST_BYTE, packet_type, (len % 256) as u8, (len / 256) as u8]
}

/// The full encoding of a frame: header, then body.
pub open spec fn spec_encode(kind: FrameKind, payload: Seq<u8>) -> Seq<u8> {
    spec_header(spec_kind_byte(kind), payload.len() as int) + payload
}

/// What decoding the given bytes yields: the frame's kind, its body and
/// how many bytes the frame occupies, or the reason it is rejected.
/// Checks happen in wire order: enough header bytes, marker, declared
/// length bounds, type byte, enough body bytes.
pub open spec fn spec_decode(b: Seq<u8>) -> Result<(FrameKind, Seq<u8>, int), CodecError> {
    if b.len() < HEADER_SIZE {
        Err(CodecError::Truncated)
    } else if b[0] != FIRST_BYTE {
        Err(CodecError::BadMarker)
    } else if spec_declared_len(b) == 0 {
        Err(CodecError::ZeroLength)
    } else if spec_declared_len(b) > MAX_BODY_SIZE {
        Err(CodecError::Oversize)
    } else if b[1] != TYPE_DATA && b[1] != TYPE_FILLER {
        Err(CodecError::UnknownType)
    } else if b.len() < HEADER_SIZE + spec_declared_len(b) {
        Err(CodecError::Truncated)
    } else {
        Ok(
            (
                spec_kind_of_byte(b[1]),
                b.subrange(HEADER_SIZE as int, HEADER_SIZE + spec_declared_len(b)),
                HEADER_SIZE + spec_declared_len(b),
            ),
        )
    }
}

/// The four header bytes for a frame of the given type byte and body length.
pub fn create_packet_header(packet_type: u8, data_len: usize) -> (r: Vec<u8>)
    requires
        data_len <= u16::MAX,
    ensures
        r@ == spec_header(packet_type, data_len as int),
{
    let size = data_len as u16;
    let mut header: Vec<u8> = Vec::new();
    header.push(FIRST_BYTE);
    header.push(packet_type);
    header.push((size & 0xFF) as u8);
    header.push((size >> 8) as u8);
    proof {
        assert(size & 0xFF == size % 256) by (bit_vector);
        assert(size >> 8 == size / 256) by (bit_vector);
        assert(header@ =~= spec_header(packet_type, data_len as int));
    }
    header
}

/// The body length a header declares, checked against the wire bounds:
/// rejected when it is zero or exceeds `MAX_BODY_SIZE`.
pub fn calculate_packet_size(header_buf: &[u8]) -> (r: Result<usize, CodecError>)
    requires
        header_buf@.len() >= HEADER_SIZE,
    ensures
        match r {
            Ok(size) => {
                &&& size == spec_declared_len(header_buf@)
                &&& 1 <= size <= MAX_BODY_SIZE
            },
            Err(e) => {
                &&& (spec_declared_len(header_buf@) == 0 <==> e == CodecError::ZeroLength)
                &&& (spec_declared_len(header_buf@) > MAX_BODY_SIZE <==> e == CodecError::Oversize)
                &&& (e == CodecError::ZeroLength || e == CodecError::Oversize)
            },
        },
{
    let packet_size: usize = ((header_buf[3] as usize) << 8) | (header_buf[2] as usize);
    proof {
        let m = header_buf@[3] as usize;
        let l = header_buf@[2] as usize;
        assert(m < 256 && l < 256 ==> ((m << 8) | l) == m * 256 + l) by (bit_vector);
    }
    if packet_size == 0 {
        return Err(CodecError::ZeroLength);
    }
    if packet_size > MAX_BODY_SIZE {
        return Err(CodecError::Oversize);
    }
    Ok(packet_size)
}

/// Encodes one frame: header, then the body, exactly as the wire wants it.
pub fn encode_frame(kind: FrameKind, payload: &[u8]) -> (r: Vec<u8>)
    requires
        1 <= payload@.len() <= MAX_BODY_SIZE,
    ensures
        r@ == spec_encode(kind, payload@),
{
    let type_byte = match kind {
        FrameKind::Data => TYPE_DATA,
        FrameKind::Filler => TYPE_FILLER,
    };
    let mut out = create_packet_header(type_byte, payload.len());
    let mut i: usize = 0;
    while i < payload.len()
        invariant
            i <= payload@.len(),
            payload@.len() <= MAX_BODY_SIZE,
            out@ == spec_header(spec_kind_byte(kind), payload@.len() as int) + payload@.subrange(
                0,
                i as int,
            ),
        decreases payload@.len() - i,
    {
        out.push(payload[i]);
        proof {
            assert(payload@.subrange(0, i + 1) =~= payload@.subrange(0, i as int).push(
                payload@[i as int],
            ));
            assert(out@ =~= spec_header(spec_kind_byte(kind), payload@.len() as int)
                + payload@.subrange(0, i + 1));
        }
        i = i + 1;
    }
    proof {
        assert(payload@.subrange(0, payload@.len() as int) =~= payload@);
    }
    out
}

/// Decodes the frame that starts at `start`, returning the frame and the
/// position just past it; fails exactly as `spec_decode` of the region says.
pub fn decode_frame(bytes: &[u8], start: usize) -> (r: Result<(Frame, usize), CodecError>)
    requires
        start <= bytes@.len(),
    ensures
        match r {
            Ok((frame, next)) => {
                &&& frame.wf()
                &&& start < next <= bytes@.len()
                &&& spec_decode(bytes@.skip(start as int)) == Ok::<_, CodecError>(
                    (frame.kind, frame.payload@, next - start),
                )
            },
            Err(e) => spec_decode(bytes@.skip(start as int)) == Err::<
                (FrameKind, Seq<u8>, int),
                CodecError,
            >(e),
        },
{
    let ghost region = bytes@.skip(start as int);
    if bytes.len() - start < HEADER_SIZE {
        return Err(CodecError::Truncated);
    }
    assert(region[0] == bytes@[start as int]);
    assert(region[1] == bytes@[start + 1]);
    assert(region[2] == bytes@[start + 2]);
    assert(region[3] == bytes@[start + 3]);
    if bytes[start] != FIRST_BYTE {
        return Err(CodecError::BadMarker);
    }
    let size = ((bytes[start + 3] as usize) << 8) | (bytes[start + 2] as usize);
    proof {
        let m = bytes@[start + 3] as usize;
        let l = bytes@[start + 2] as usize;
        assert(m < 256 && l < 256 ==> ((m << 8) | l) == m * 256 + l) by (bit_vector);
    }
    if size == 0 {
        return Err(CodecError::ZeroLength);
    }
    if size > MAX_BODY_SIZE {
        return Err(CodecError::Oversize);
    }
    let type_byte = bytes[start + 1];
    if type_byte != TYPE_DATA && type_byte != TYPE_FILLER {
        return Err(CodecError::UnknownType);
    }
    if bytes.len() - start - HEADER_SIZE < size {
        return Err(CodecError::Truncated);
    }
    let kind = if type_byte == TYPE_DATA {
        FrameKind::Data
    } else {
        FrameKind::Filler
    };
    let body_start = start + HEADER_SIZE;
    let mut payload: Vec<u8> = Vec::new();
    let mut i: usize = 0;
    while i < size
        invariant
            i <= size,
            body_start + size <= bytes@.len(),
            body_start + size <= usize::MAX,
            payload@ == bytes@.subrange(body_start as int, body_start + i),
        decreases size - i,
    {
        payload.push(bytes[body_start + i]);
        proof {
            assert(bytes@.subrange(body_start as int, body_start + i + 1) =~= bytes@.subrange(
                body_start as int,
                body_start + i,
            ).push(bytes@[body_start + i]));
        }
        i = i + 1;
    }
    proof {
        assert(region.subrange(HEADER_SIZE as int, HEADER_SIZE + size) =~= bytes@.subrange(
            body_start as int,
            body_start + size,
        ));
    }
    Ok((Frame { kind, payload }, body_start + size))
}

/// Frame round-trip: a frame of either kind with any body in the allowed
/// length range decodes from its own encoding, yielding the same kind and
/// the same body and consuming exactly the encoding.
pub proof fn lemma_frame_round_trip(kind: FrameKind, payload: Seq<u8>)
    requires
        1 <= payload.len() <= MAX_BODY_SIZE,
    ensures
        spec_decode(spec_encode(kind, payload)) == Ok::<_, CodecError>(
            (kind, payload, HEADER_SIZE + payload.len()),
        ),
{
    let b = spec_encode(kind, payload);
    let len = payload.len() as int;
    assert(b[0] == FIRST_BYTE);
    assert(b[1] == spec_kind_byte(kind));
    assert(b[2] == (len % 256) as u8);
    assert(b[3] == (len / 256) as u8);
    assert(spec_declared_len(b) == len) by {
        assert(0 <= len % 256 < 256);
        assert((len % 256) as u8 == len % 256);
        assert(0 <= len / 256 < 41);
        assert((len / 256) as u8 == len / 256);
        assert((len / 256) * 256 + len % 256 == len) by (nonlinear_arith);
    }
    assert(spec_kind_of_byte(spec_kind_byte(kind)) == kind);
    assert(b.subrange(HEADER_SIZE as int, HEADER_SIZE + len) =~= payload);
}

/// Frame rejection: bytes whose marker is wrong, whose declared length is
/// zero, or whose declared length exceeds `MAX_BODY_SIZE` never decode.
pub proof fn lemma_frame_rejection(b: Seq<u8>)
    requires
        b.len() >= HEADER_SIZE,
        b[0] != FIRST_BYTE || spec_declared_len(b) == 0 || spec_declared_len(b) > MAX_BODY_SIZE,
    ensures
        spec_decode(b) is Err,
{
}

} // verus!
