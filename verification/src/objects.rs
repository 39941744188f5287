//! Core data objects: send buffers, send records and the usage report that
//! batches recent send history for the speed corrector.

use vstd::prelude::*;

verus! {

/// Upper bound on one frame body, and the capacity of every send buffer.
pub const ONE_PACKET_MAX_SIZE: usize = 10240;

/// A usage report carries at most this many records per kind.
pub const MAX_STAT_COUNT: usize = 10;

/// A send buffer of fixed capacity `ONE_PACKET_MAX_SIZE` with a logical
/// `size`; filler packets are zero-filled payloads of this type.
pub struct Packet {
    pub size: usize,
    pub buf: Vec<u8>,
}

impl Packet {
    /// The buffer has its full fixed capacity and the logical size fits in it.
    pub open spec fn wf(&self) -> bool {
        &&& self.buf@.len() == ONE_PACKET_MAX_SIZE
        &&& self.size <= ONE_PACKET_MAX_SIZE
    }

    /// A fresh zero-filled packet of full size.
    pub fn new() -> (r: Packet)
        ensures
            r.wf(),
            r.size == ONE_PACKET_MAX_SIZE,
            forall|i: int| 0 <= i < r.buf@.len() ==> r.buf@[i] == 0u8,
    {
        Packet::new_packet(ONE_PACKET_MAX_SIZE)
    }

    /// A fresh zero-filled packet of the given logical size.
    pub fn new_packet(size: usize) -> (r: Packet)
        requires
            size <= ONE_PACKET_MAX_SIZE,
        ensures
            r.wf(),
            r.size == size,
            forall|i: int| 0 <= i < r.buf@.len() ==> r.buf@[i] == 0u8,
    {
        let mut buf: Vec<u8> = Vec::new();
        while buf.len() < ONE_PACKET_MAX_SIZE
            invariant
                buf@.len() <= ONE_PACKET_MAX_SIZE,
                forall|i: int| 0 <= i < buf@.len() ==> buf@[i] == 0u8,
            decreases ONE_PACKET_MAX_SIZE - buf@.len(),
        {
            buf.push(0u8);
        }
        Packet { size, buf }
    }
}

/// One entry of send history: when it was sent and how many bytes.
/// Timestamps are milliseconds on a monotonic clock.
#[derive(Clone, Copy, PartialEq, Eq, Structural, Debug)]
pub struct SentPacket {
    pub sent_date: u64,
    pub sent_size: usize,
}

/// A bounded batch of recent send records (the "hot potato" usage report):
/// at most `MAX_STAT_COUNT` records per kind, drained from a filler engine
/// and handed upward for aggregation.
pub struct HotPotatoInfo {
    /// The speed the connection was asked to hold while these were sent.
    pub target_speed: usize,
    pub data_packets: Vec<SentPacket>,
    pub filler_packets: Vec<SentPacket>,
}

impl HotPotatoInfo {
    /// Bounded record counts, and every record fits in one send buffer.
    pub open spec fn wf(&self) -> bool {
        &&& self.data_packets@.len() <= MAX_STAT_COUNT
        &&& self.filler_packets@.len() <= MAX_STAT_COUNT
        &&& forall|i: int| 0 <= i < self.data_packets@.len()
                ==> (#[trigger] self.data_packets@[i]).sent_size <= ONE_PACKET_MAX_SIZE
        &&& forall|i: int| 0 <= i < self.filler_packets@.len()
                ==> (#[trigger] self.filler_packets@[i]).sent_size <= ONE_PACKET_MAX_SIZE
    }

    /// How many data records the report holds.
    pub fn data_count(&self) -> (r: usize)
        ensures
            r == self.data_packets@.len(),
    {
        self.data_packets.len()
    }

    /// How many filler records the report holds.
    pub fn filler_count(&self) -> (r: usize)
        ensures
            r == self.filler_packets@.len(),
    {
        self.filler_packets.len()
    }
}

impl Default for HotPotatoInfo {
    /// An empty report with no target speed.
    fn default() -> (r: HotPotatoInfo)
        ensures
            r.wf(),
            r.target_speed == 0,
            r.data_packets@.len() == 0,
            r.filler_packets@.len() == 0,
    {
        HotPotatoInfo { target_speed: 0, data_packets: Vec::new(), filler_packets: Vec::new() }
    }
}

/// What a proxy worker reports upward: setup done, a usage report, or a
/// fatal failure of the connection.
pub enum ProxyState {
    SetupComplete,
    Info(HotPotatoInfo),
    Broken,
}

/// What the control plane tells a proxy worker.
pub enum RuntimeCommand {
    SetSpeed(crate::speed::SpeedCorrectorCommand),
}

} // verus!
