//! The stream splitter's core: one wire stream carries frames of two
//! logical channels, and a frame read by the wrong channel is never lost —
//! it waits in the other channel's pending queue and is delivered there,
//! in order, before any fresh read.

use vstd::prelude::*;
use crate::codec::{Frame, FrameKind, MAX_BODY_SIZE};

verus! {

/// First payload byte of the in-band identification frame a client sends
/// once, early, on the filler channel.
pub const ID_MARKER: u8 = 0x01;

/// A frame body parked for the channel it belongs to.
pub struct QueuedPacket {
    pub buf: Vec<u8>,
    pub len: usize,
}

impl QueuedPacket {
    /// The buffer holds exactly `len` bytes of one frame body.
    pub open spec fn wf(&self) -> bool {
        &&& self.len == self.buf@.len()
        &&& self.len <= MAX_BODY_SIZE
    }

    /// Parks a copy of the given body.
    pub fn copy_from(buf: &[u8]) -> (r: QueuedPacket)
        requires
            buf@.len() <= MAX_BODY_SIZE,
        ensures
            r.wf(),
            r.buf@ == buf@,
            r.len == buf@.len(),
    {
        let mut packet_buf: Vec<u8> = Vec::new();
        let mut i: usize = 0;
        while i < buf.len()
            invariant
                i <= buf@.len(),
                packet_buf@ == buf@.take(i as int),
            decreases buf@.len() - i,
        {
            packet_buf.push(buf[i]);
            proof {
                assert(buf@.take(i + 1) =~= buf@.take(i as int).push(buf@[i as int]));
            }
            i = i + 1;
        }
        proof {
            assert(buf@.take(buf@.len() as int) =~= buf@);
        }
        let len = packet_buf.len();
        QueuedPacket { buf: packet_buf, len }
    }
}

/// The bodies of a queue of parked packets, in order.
pub open spec fn pending_view(s: Seq<QueuedPacket>) -> Seq<Seq<u8>>
    decreases s.len(),
{
    if s.len() == 0 {
        Seq::empty()
    } else {
        pending_view(s.drop_last()).push(s.last().buf@)
    }
}

/// The byte views of a list of owned bodies, in order.
pub open spec fn bodies(s: Seq<Vec<u8>>) -> Seq<Seq<u8>>
    decreases s.len(),
{
    if s.len() == 0 {
        Seq::empty()
    } else {
        bodies(s.drop_last()).push(s.last()@)
    }
}

/// The bodies of the frames of one kind, in wire order.
pub open spec fn kind_payloads(frames: Seq<Frame>, k: FrameKind) -> Seq<Seq<u8>>
    decreases frames.len(),
{
    if frames.len() == 0 {
        Seq::empty()
    } else if frames.last().kind == k {
        kind_payloads(frames.drop_last(), k).push(frames.last().payload@)
    } else {
        kind_payloads(frames.drop_last(), k)
    }
}

pub proof fn lemma_pending_view_push(s: Seq<QueuedPacket>, q: QueuedPacket)
    ensures
        pending_view(s.push(q)) == pending_view(s).push(q.buf@),
{
    assert(s.push(q).drop_last() =~= s);
}

pub proof fn lemma_pending_view_drop_first(s: Seq<QueuedPacket>)
    requires
        s.len() > 0,
    ensures
        pending_view(s).len() == s.len(),
        pending_view(s)[0] == s[0].buf@,
        pending_view(s.drop_first()) == pending_view(s).drop_first(),
    decreases s.len(),
{
    if s.len() == 1 {
        assert(s.drop_last() =~= Seq::<QueuedPacket>::empty());
        assert(s.drop_first() =~= Seq::<QueuedPacket>::empty());
        assert(pending_view(Seq::<QueuedPacket>::empty()) =~= Seq::<Seq<u8>>::empty());
        assert(s.last() == s[0]);
        assert(pending_view(s) =~= Seq::<Seq<u8>>::empty().push(s[0].buf@));
        assert(pending_view(s.drop_first()) =~= pending_view(s).drop_first());
    } else {
        lemma_pending_view_drop_first(s.drop_last());
        assert(s.drop_last()[0] == s[0]);
        assert(s.drop_last().drop_first() =~= s.drop_first().drop_last());
        assert(s.drop_first().last() == s.last());
        assert(pending_view(s.drop_first()) == pending_view(s.drop_first().drop_last()).push(
            s.drop_first().last().buf@,
        ));
        assert(pending_view(s.drop_first()) =~= pending_view(s).drop_first());
    }
}

/// The two pending queues of one split stream: frames decoded by the wrong
/// channel wait here for their own channel, in arrival order.
pub struct SplitterCore {
    data_pending: Vec<QueuedPacket>,
    filler_pending: Vec<QueuedPacket>,
}

impl SplitterCore {
    /// The parked bodies waiting for the given channel, in order.
    pub closed spec fn pending(&self, k: FrameKind) -> Seq<Seq<u8>> {
        match k {
            FrameKind::Data => pending_view(self.data_pending@),
            FrameKind::Filler => pending_view(self.filler_pending@),
        }
    }

    pub closed spec fn wf(&self) -> bool {
        &&& forall|i: int|
            0 <= i < self.data_pending@.len() ==> (#[trigger] self.data_pending@[i]).wf()
        &&& forall|i: int|
            0 <= i < self.filler_pending@.len() ==> (#[trigger] self.filler_pending@[i]).wf()
    }

    /// A fresh splitter with nothing parked.
    pub fn new() -> (r: SplitterCore)
        ensures
            r.wf(),
            r.pending(FrameKind::Data).len() == 0,
            r.pending(FrameKind::Filler).len() == 0,
    {
        SplitterCore { data_pending: Vec::new(), filler_pending: Vec::new() }
    }

    /// Hands out the oldest body parked for this channel, if any: parked
    /// frames take priority over fresh reads, and leave in arrival order.
    pub fn take_pending(&mut self, want: FrameKind) -> (r: Option<Vec<u8>>)
        requires
            old(self).wf(),
        ensures
            final(self).wf(),
            ({
                let other = match want {
                    FrameKind::Data => FrameKind::Filler,
                    FrameKind::Filler => FrameKind::Data,
                };
                &&& final(self).pending(other) == old(self).pending(other)
                &&& match r {
                    Some(p) => {
                        &&& old(self).pending(want).len() > 0
                        &&& p@ == old(self).pending(want)[0]
                        &&& final(self).pending(want) == old(self).pending(want).drop_first()
                    },
                    None => {
                        &&& old(self).pending(want).len() == 0
                        &&& final(self).pending(want) == old(self).pending(want)
                    },
                }
            }),
    {
        match want {
            FrameKind::Data => {
                if self.data_pending.len() > 0 {
                    proof {
                        lemma_pending_view_drop_first(self.data_pending@);
                    }
                    let ghost pre = self.data_pending@;
                    let packet = self.data_pending.remove(0);
                    proof {
                        assert(pre.drop_first() =~= self.data_pending@);
                    }
                    Some(packet.buf)
                } else {
                    None
                }
            },
            FrameKind::Filler => {
                if self.filler_pending.len() > 0 {
                    proof {
                        lemma_pending_view_drop_first(self.filler_pending@);
                    }
                    let ghost pre = self.filler_pending@;
                    let packet = self.filler_pending.remove(0);
                    proof {
                        assert(pre.drop_first() =~= self.filler_pending@);
                    }
                    Some(packet.buf)
                } else {
                    None
                }
            },
        }
    }

    /// Takes one freshly decoded frame on behalf of the channel `want`,
    /// which must have drained its own pending queue first: a frame of the
    /// right kind is handed straight out, a frame of the other kind is
    /// parked at the back of that channel's queue — never dropped, never
    /// reordered, and never an error merely for being of the other kind.
    pub fn route(&mut self, want: FrameKind, frame: &Frame) -> (r: Option<Vec<u8>>)
        requires
            old(self).wf(),
            frame.wf(),
            old(self).pending(want).len() == 0,
        ensures
            final(self).wf(),
            frame.kind == want ==> {
                &&& match r {
                    Some(p) => p@ == frame.payload@,
                    None => false,
                }
                &&& final(self).pending(FrameKind::Data) == old(self).pending(FrameKind::Data)
                &&& final(self).pending(FrameKind::Filler) == old(self).pending(FrameKind::Filler)
            },
            frame.kind != want ==> {
                &&& r is None
                &&& final(self).pending(frame.kind) == old(self).pending(frame.kind).push(
                    frame.payload@,
                )
                &&& final(self).pending(want) == old(self).pending(want)
            },
    {
        let same = match (frame.kind, want) {
            (FrameKind::Data, FrameKind::Data) => true,
            (FrameKind::Filler, FrameKind::Filler) => true,
            _ => false,
        };
        if same {
            return Some(QueuedPacket::copy_from(frame.payload.as_slice()).buf);
        }
        let packet = QueuedPacket::copy_from(frame.payload.as_slice());
        match frame.kind {
            FrameKind::Data => {
                proof {
                    lemma_pending_view_push(self.data_pending@, packet);
                }
                self.data_pending.push(packet);
            },
            FrameKind::Filler => {
                proof {
                    lemma_pending_view_push(self.filler_pending@, packet);
                }
                self.filler_pending.push(packet);
            },
        }
        None
    }
}

/// Multiplexing fidelity: however data and filler frames interleave on the
/// wire, reading through the splitter yields each channel exactly its own
/// bodies, in wire order — cross-delivered frames included. The data
/// channel reads every frame here; bodies parked for the filler channel
/// are drained through its pending queue.
pub fn split_payloads(frames: &Vec<Frame>) -> (r: (Vec<Vec<u8>>, Vec<Vec<u8>>))
    requires
        forall|i: int| 0 <= i < frames@.len() ==> (#[trigger] frames@[i]).wf(),
    ensures
        bodies(r.0@) == kind_payloads(frames@, FrameKind::Data),
        bodies(r.1@) == kind_payloads(frames@, FrameKind::Filler),
{
    let mut core = SplitterCore::new();
    let mut data_out: Vec<Vec<u8>> = Vec::new();
    let mut filler_out: Vec<Vec<u8>> = Vec::new();
    proof {
        assert(frames@.take(0) =~= Seq::<Frame>::empty());
        assert(bodies(data_out@) =~= kind_payloads(frames@.take(0), FrameKind::Data));
        assert(bodies(filler_out@) =~= kind_payloads(frames@.take(0), FrameKind::Filler));
    }
    let mut i: usize = 0;
    while i < frames.len()
        invariant
            forall|k: int| 0 <= k < frames@.len() ==> (#[trigger] frames@[k]).wf(),
            i <= frames@.len(),
            core.wf(),
            core.pending(FrameKind::Data).len() == 0,
            core.pending(FrameKind::Filler).len() == 0,
            bodies(data_out@) == kind_payloads(frames@.take(i as int), FrameKind::Data),
            bodies(filler_out@) == kind_payloads(frames@.take(i as int), FrameKind::Filler),
        decreases frames@.len() - i,
    {
        proof {
            assert(frames@.take(i + 1).drop_last() =~= frames@.take(i as int));
            assert(frames@.take(i + 1).last() == frames@[i as int]);
        }
        let routed = core.route(FrameKind::Data, &frames[i]);
        match routed {
            Some(p) => {
                let ghost before_push = data_out@;
                data_out.push(p);
                proof {
                    assert(data_out@.drop_last() =~= before_push);
                    assert(bodies(data_out@) =~= kind_payloads(
                        frames@.take(i + 1),
                        FrameKind::Data,
                    ));
                    assert(bodies(filler_out@) =~= kind_payloads(
                        frames@.take(i + 1),
                        FrameKind::Filler,
                    ));
                }
            },
            None => {
                // The frame was parked for the filler channel; that channel
                // now drains its pending queue.
                let taken = core.take_pending(FrameKind::Filler);
                match taken {
                    Some(p) => {
                        let ghost before_push = filler_out@;
                        filler_out.push(p);
                        proof {
                            assert(filler_out@.drop_last() =~= before_push);
                            assert(core.pending(FrameKind::Filler) =~= Seq::<Seq<u8>>::empty());
                            assert(bodies(filler_out@) =~= kind_payloads(
                                frames@.take(i + 1),
                                FrameKind::Filler,
                            ));
                            assert(bodies(data_out@) =~= kind_payloads(
                                frames@.take(i + 1),
                                FrameKind::Data,
                            ));
                        }
                    },
                    None => {
                        proof {
                            // A parked frame is always there to take.
                            assert(false);
                        }
                    },
                }
            },
        }
        i = i + 1;
    }
    proof {
        assert(frames@.take(frames@.len() as int) =~= frames@);
    }
    (data_out, filler_out)
}

/// Recognizes the in-band identification payload: a first byte of
/// `ID_MARKER` followed by at least one byte of connection name, whose
/// bytes are returned; anything else is not an identification.
pub fn parse_identification(payload: &[u8]) -> (r: Option<Vec<u8>>)
    ensures
        match r {
            Some(name) => {
                &&& payload@.len() > 1
                &&& payload@[0] == ID_MARKER
                &&& name@ == payload@.skip(1)
            },
            None => payload@.len() <= 1 || payload@[0] != ID_MARKER,
        },
{
    if payload.len() <= 1 || payload[0] != ID_MARKER {
        return None;
    }
    let mut name: Vec<u8> = Vec::new();
    let mut i: usize = 1;
    while i < payload.len()
        invariant
            1 <= i <= payload@.len(),
            name@ == payload@.subrange(1, i as int),
        decreases payload@.len() - i,
    {
        name.push(payload[i]);
        proof {
            assert(payload@.subrange(1, i + 1) =~= payload@.subrange(1, i as int).push(
                payload@[i as int],
            ));
        }
        i = i + 1;
    }
    proof {
        assert(payload@.subrange(1, payload@.len() as int) =~= payload@.skip(1));
    }
    Some(name)
}

} // verus!
