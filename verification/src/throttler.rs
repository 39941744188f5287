//! The rolling-window rate accountant: a leaky-bucket limiter that answers
//! "how many more bytes may be sent right now" from a queue of recent send
//! records, plus the throttler that holds packets back until the window has
//! room for them.

use vstd::prelude::*;
use crate::objects::{Packet, SentPacket};

verus! {

/// Length of the analysis window, in milliseconds.
pub const ANALYZE_PERIOD_MS: usize = 100;

/// Default target speed in bytes per millisecond (one megabyte per second).
pub const INITIAL_SPEED: usize = 1024 * 1024 / 1000;

/// Record timestamps never decrease along the queue.
pub open spec fn sorted_by_date(s: Seq<SentPacket>) -> bool {
    forall|i: int, j: int|
        0 <= i <= j < s.len() ==> (#[trigger] s[i]).sent_date <= (#[trigger] s[j]).sent_date
}

/// Sum of the byte sizes of all records.
pub open spec fn total_size(s: Seq<SentPacket>) -> int
    decreases s.len(),
{
    if s.len() == 0 {
        0
    } else {
        total_size(s.drop_last()) + s.last().sent_size
    }
}

/// A record still counts against the window at time `now`.
pub open spec fn in_window(now: int, sent_date: int) -> bool {
    now - sent_date < ANALYZE_PERIOD_MS
}

/// Sum of the byte sizes of the records still inside the window.
pub open spec fn window_total(s: Seq<SentPacket>, now: int) -> int
    decreases s.len(),
{
    if s.len() == 0 {
        0
    } else {
        window_total(s.drop_last(), now) + if in_window(now, s.last().sent_date as int) {
            s.last().sent_size as int
        } else {
            0
        }
    }
}

/// How many leading records have already fallen out of the window.
pub open spec fn stale_prefix_len(s: Seq<SentPacket>, now: int) -> int
    decreases s.len(),
{
    if s.len() == 0 || in_window(now, s[0].sent_date as int) {
        0
    } else {
        1 + stale_prefix_len(s.drop_first(), now)
    }
}

pub proof fn lemma_total_size_drop_first(s: Seq<SentPacket>)
    requires
        s.len() > 0,
    ensures
        total_size(s) == s[0].sent_size + total_size(s.drop_first()),
    decreases s.len(),
{
    if s.len() == 1 {
        assert(s.drop_first() =~= Seq::<SentPacket>::empty());
        assert(total_size(s.drop_first()) == 0);
        assert(s.drop_last() =~= Seq::<SentPacket>::empty());
        assert(total_size(s) == total_size(s.drop_last()) + s.last().sent_size);
        assert(s.last() == s[0]);
    } else {
        lemma_total_size_drop_first(s.drop_last());
        assert(s.drop_last()[0] == s[0]);
        assert(s.drop_last().drop_first() =~= s.drop_first().drop_last());
        assert(s.drop_first().last() == s.last());
        assert(total_size(s) == total_size(s.drop_last()) + s.last().sent_size);
        assert(total_size(s.drop_first()) == total_size(s.drop_first().drop_last())
            + s.drop_first().last().sent_size);
    }
}

pub proof fn lemma_window_total_drop_first(s: Seq<SentPacket>, now: int)
    requires
        s.len() > 0,
    ensures
        window_total(s, now) == window_total(s.drop_first(), now) + if in_window(
            now,
            s[0].sent_date as int,
        ) {
            s[0].sent_size as int
        } else {
            0
        },
    decreases s.len(),
{
    if s.len() == 1 {
        assert(s.drop_first() =~= Seq::<SentPacket>::empty());
        assert(window_total(s.drop_first(), now) == 0);
        assert(s.drop_last() =~= Seq::<SentPacket>::empty());
        assert(window_total(s, now) == window_total(s.drop_last(), now) + if in_window(
            now,
            s.last().sent_date as int,
        ) {
            s.last().sent_size as int
        } else {
            0
        });
        assert(s.last() == s[0]);
    } else {
        lemma_window_total_drop_first(s.drop_last(), now);
        assert(window_total(s, now) == window_total(s.drop_last(), now) + if in_window(
            now,
            s.last().sent_date as int,
        ) {
            s.last().sent_size as int
        } else {
            0
        });
        assert(s.drop_last()[0] == s[0]);
        assert(s.drop_last().drop_first() =~= s.drop_first().drop_last());
        assert(s.drop_first().last() == s.last());
        assert(window_total(s.drop_first(), now) == window_total(
            s.drop_first().drop_last(),
            now,
        ) + if in_window(now, s.drop_first().last().sent_date as int) {
            s.drop_first().last().sent_size as int
        } else {
            0
        });
    }
}

/// When every record lies inside the window, the window sum is the whole sum.
pub proof fn lemma_window_total_all_in(s: Seq<SentPacket>, now: int)
    requires
        forall|i: int| 0 <= i < s.len() ==> in_window(now, (#[trigger] s[i]).sent_date as int),
    ensures
        window_total(s, now) == total_size(s),
    decreases s.len(),
{
    if s.len() > 0 {
        lemma_window_total_all_in(s.drop_last(), now);
    }
}

/// A prefix never sums to more than the whole queue.
pub proof fn lemma_total_size_take_le(s: Seq<SentPacket>, j: int)
    requires
        0 <= j <= s.len(),
    ensures
        total_size(s.take(j)) <= total_size(s),
    decreases s.len() - j,
{
    if j == s.len() {
        assert(s.take(j) =~= s);
    } else {
        lemma_total_size_take_le(s, j + 1);
        assert(s.take(j + 1).drop_last() =~= s.take(j));
        assert(total_size(s.take(j + 1)) == total_size(s.take(j)) + s[j].sent_size);
    }
}

/// The rolling-window byte accountant: keeps send records from the last
/// `ANALYZE_PERIOD_MS` milliseconds and compares their sum to the window's
/// capacity `speed * ANALYZE_PERIOD_MS`.
pub struct ThrottlerAnalyzer {
    queue: Vec<SentPacket>,
    period_capacity: usize,
}

impl ThrottlerAnalyzer {
    /// The send records currently held, oldest first.
    pub closed spec fn records(&self) -> Seq<SentPacket> {
        self.queue@
    }

    /// How many bytes the window may hold in total.
    pub closed spec fn capacity(&self) -> int {
        self.period_capacity as int
    }

    /// Records sorted by time and their total small enough to sum safely.
    pub open spec fn wf(&self) -> bool {
        &&& sorted_by_date(self.records())
        &&& total_size(self.records()) <= usize::MAX
    }

    /// `now` does not lie before the newest record.
    pub open spec fn time_ok(&self, now: u64) -> bool {
        self.records().len() == 0 || self.records().last().sent_date <= now
    }

    /// The bytes the window's history currently holds in total: what a
    /// caller checks against `usize::MAX` before recording more.
    pub fn recorded_bytes(&self) -> (r: usize)
        requires
            self.wf(),
        ensures
            r == total_size(self.records()),
    {
        let ghost s = self.queue@;
        proof {
            assert(s.take(0) =~= Seq::<SentPacket>::empty());
        }
        let mut sum: usize = 0;
        let mut i: usize = 0;
        while i < self.queue.len()
            invariant
                self.queue@ == s,
                i <= s.len(),
                total_size(s) <= usize::MAX,
                sum == total_size(s.take(i as int)),
            decreases s.len() - i,
        {
            proof {
                lemma_total_size_take_le(s, i + 1);
                assert(s.take(i + 1).drop_last() =~= s.take(i as int));
                assert(s.take(i + 1).last() == s[i as int]);
            }
            sum = sum + self.queue[i].sent_size;
            i = i + 1;
        }
        proof {
            assert(s.take(s.len() as int) =~= s);
        }
        sum
    }

    /// A fresh accountant with no history and the given speed, in bytes
    /// per millisecond.
    pub fn new(speed: usize) -> (r: ThrottlerAnalyzer)
        requires
            speed * ANALYZE_PERIOD_MS <= usize::MAX,
        ensures
            r.wf(),
            r.records().len() == 0,
            r.capacity() == speed * ANALYZE_PERIOD_MS,
    {
        ThrottlerAnalyzer { queue: Vec::new(), period_capacity: speed * ANALYZE_PERIOD_MS }
    }

    /// Changes the window capacity for later calls; history is kept as is.
    pub fn set_speed(&mut self, speed: usize)
        requires
            speed * ANALYZE_PERIOD_MS <= usize::MAX,
        ensures
            final(self).records() == old(self).records(),
            final(self).capacity() == speed * ANALYZE_PERIOD_MS,
            old(self).wf() ==> final(self).wf(),
    {
        self.period_capacity = speed * ANALYZE_PERIOD_MS;
    }

    /// Appends one send record at time `now`.
    pub fn data_was_sent(&mut self, amount: usize, now: u64)
        requires
            old(self).wf(),
            old(self).time_ok(now),
            total_size(old(self).records()) + amount <= usize::MAX,
        ensures
            final(self).wf(),
            final(self).records() == old(self).records().push(
                (SentPacket { sent_date: now, sent_size: amount }),
            ),
            final(self).capacity() == old(self).capacity(),
    {
        self.queue.push(SentPacket { sent_date: now, sent_size: amount });
        proof {
            let s = self.queue@;
            assert(s.drop_last() =~= old(self).records());
        }
    }

    /// Prunes records that left the window, then answers how many more
    /// bytes may be sent at time `now`: the window capacity minus what the
    /// window still holds, and zero when the window is already full.
    pub fn get_available_space(&mut self, now: u64) -> (r: usize)
        requires
            old(self).wf(),
            old(self).time_ok(now),
        ensures
            final(self).wf(),
            final(self).time_ok(now),
            final(self).capacity() == old(self).capacity(),
            final(self).records() == old(self).records().skip(
                stale_prefix_len(old(self).records(), now as int),
            ),
            total_size(final(self).records()) == window_total(old(self).records(), now as int),
            forall|i: int|
                0 <= i < final(self).records().len() ==> in_window(
                    now as int,
                    (#[trigger] final(self).records()[i]).sent_date as int,
                ),
            r == if old(self).capacity() > window_total(old(self).records(), now as int) {
                old(self).capacity() - window_total(old(self).records(), now as int)
            } else {
                0
            },
    {
        let ghost q0 = self.queue@;
        let ghost cap0 = self.period_capacity;
        let ghost mut pruned: int = 0;
        // Drop records that are at least one window old.
        loop
            invariant
                self.period_capacity == cap0,
                0 <= pruned <= q0.len(),
                self.queue@ == q0.skip(pruned),
                sorted_by_date(self.queue@),
                total_size(self.queue@) <= usize::MAX,
                self.time_ok(now),
                window_total(q0, now as int) == window_total(self.queue@, now as int),
                stale_prefix_len(q0, now as int) == pruned + stale_prefix_len(self.queue@, now as int),
            ensures
                self.period_capacity == cap0,
                self.queue@ == q0.skip(stale_prefix_len(q0, now as int)),
                sorted_by_date(self.queue@),
                total_size(self.queue@) <= usize::MAX,
                window_total(q0, now as int) == window_total(self.queue@, now as int),
                forall|i: int|
                    0 <= i < self.queue@.len() ==> in_window(
                        now as int,
                        (#[trigger] self.queue@[i]).sent_date as int,
                    ),
            decreases self.queue@.len(),
        {
            if self.queue.len() == 0 {
                break;
            }
            let first_date = self.queue[0].sent_date;
            if now >= first_date && now - first_date >= ANALYZE_PERIOD_MS as u64 {
                proof {
                    lemma_total_size_drop_first(self.queue@);
                    lemma_window_total_drop_first(self.queue@, now as int);
                }
                self.queue.remove(0);
                proof {
                    pruned = pruned + 1;
                    assert(self.queue@ =~= q0.skip(pruned));
                }
            } else {
                proof {
                    // The first record is inside the window; sortedness puts
                    // every later record inside it too.
                    assert(in_window(now as int, self.queue@[0].sent_date as int));
                    assert forall|i: int| 0 <= i < self.queue@.len() implies in_window(
                        now as int,
                        (#[trigger] self.queue@[i]).sent_date as int,
                    ) by {
                        assert(self.queue@[0].sent_date <= self.queue@[i].sent_date);
                    }
                }
                break;
            }
        }
        proof {
            lemma_window_total_all_in(self.queue@, now as int);
        }
        // Sum what the window still holds.
        let ghost q = self.queue@;
        let mut overall_sent_size: usize = 0;
        let mut i: usize = 0;
        while i < self.queue.len()
            invariant
                self.queue@ == q,
                self.period_capacity == cap0,
                i <= q.len(),
                total_size(q) <= usize::MAX,
                overall_sent_size == total_size(q.take(i as int)),
            decreases q.len() - i,
        {
            proof {
                lemma_total_size_take_le(q, i + 1);
                assert(q.take(i + 1).drop_last() =~= q.take(i as int));
                assert(total_size(q.take(i + 1)) == total_size(q.take(i as int))
                    + q[i as int].sent_size);
            }
            overall_sent_size = overall_sent_size + self.queue[i].sent_size;
            i = i + 1;
        }
        proof {
            assert(q.take(q.len() as int) =~= q);
        }
        if self.period_capacity > overall_sent_size {
            self.period_capacity - overall_sent_size
        } else {
            0
        }
    }
}

/// Control events handed to the throttler.
pub enum ThrottlerCommand {
    /// A packet to send as soon as the window has room for it.
    Enqueue(Packet),
    /// Drop everything still queued.
    Dispose,
}

/// What one throttler step produced.
pub enum ThrottlerResult {
    /// Nothing queued and no event handed in.
    NoData,
    /// The handed-in packet fit the window and may go out at once.
    DirectPacket(Packet),
    /// A previously queued packet now fits the window.
    ThrottledPacket(Packet),
    /// The window has no room; the packet stays queued.
    Throttling,
}

/// Holds packets back until the rolling window has room for them: packets
/// flow out in arrival order, never faster than the window allows.
pub struct Throttler {
    queue: Vec<Packet>,
    analyzer: ThrottlerAnalyzer,
}

impl Throttler {
    /// The packets waiting for room, oldest first (their logical sizes).
    pub closed spec fn queued_sizes(&self) -> Seq<int> {
        self.queue@.map(|i: int, p: Packet| p.size as int)
    }

    /// The send records the inner accountant holds.
    pub closed spec fn records(&self) -> Seq<SentPacket> {
        self.analyzer.records()
    }

    /// The inner accountant's window capacity.
    pub closed spec fn capacity(&self) -> int {
        self.analyzer.capacity()
    }

    pub closed spec fn wf(&self) -> bool {
        self.analyzer.wf()
    }

    /// `now` does not lie before the newest record.
    pub closed spec fn time_ok(&self, now: u64) -> bool {
        self.analyzer.time_ok(now)
    }

    /// A fresh throttler at the default speed with nothing queued.
    pub fn new() -> (r: Throttler)
        ensures
            r.wf(),
            r.queued_sizes().len() == 0,
            r.records().len() == 0,
            r.capacity() == INITIAL_SPEED * ANALYZE_PERIOD_MS,
    {
        let analyzer = ThrottlerAnalyzer::new(INITIAL_SPEED);
        Throttler { queue: Vec::new(), analyzer }
    }

    /// One queue-side step at time `now`: hands out the oldest queued packet
    /// if the window has room for it, reports `Throttling` if not, and
    /// `NoData` when nothing is queued (the caller may then hand in an
    /// event).
    pub fn get_packet(&mut self, now: u64) -> (r: ThrottlerResult)
        requires
            old(self).wf(),
            old(self).time_ok(now),
        ensures
            final(self).wf(),
            final(self).time_ok(now),
            final(self).capacity() == old(self).capacity(),
            ({
                let avail = if old(self).capacity() > window_total(old(self).records(), now as int) {
                    old(self).capacity() - window_total(old(self).records(), now as int)
                } else {
                    0
                };
                let pruned = old(self).records().skip(
                    stale_prefix_len(old(self).records(), now as int),
                );
                if old(self).queued_sizes().len() == 0 {
                    &&& r is NoData
                    &&& final(self).queued_sizes() == old(self).queued_sizes()
                    &&& final(self).records() == pruned
                } else if old(self).queued_sizes()[0] <= avail {
                    &&& match r {
                        ThrottlerResult::ThrottledPacket(p) => {
                            &&& p.size == old(self).queued_sizes()[0]
                            &&& final(self).records() == pruned.push(
                                (SentPacket { sent_date: now, sent_size: p.size }),
                            )
                        },
                        _ => false,
                    }
                    &&& final(self).queued_sizes() == old(self).queued_sizes().drop_first()
                } else {
                    &&& r is Throttling
                    &&& final(self).queued_sizes() == old(self).queued_sizes()
                    &&& final(self).records() == pruned
                }
            }),
    {
        let available_space = self.analyzer.get_available_space(now);
        if self.queue.len() > 0 {
            if self.queue[0].size <= available_space {
                let first = self.queue.remove(0);
                self.analyzer.data_was_sent(first.size, now);
                proof {
                    assert(self.queue@.map(|i: int, p: Packet| p.size as int) =~= old(
                        self,
                    ).queued_sizes().drop_first());
                }
                return ThrottlerResult::ThrottledPacket(first);
            }
            return ThrottlerResult::Throttling;
        }
        ThrottlerResult::NoData
    }

    /// Handles an `Enqueue` event at time `now`: a packet that fits the
    /// window while nothing is queued goes out at once; any other packet
    /// waits in line.
    pub fn enqueue(&mut self, packet: Packet, now: u64) -> (r: ThrottlerResult)
        requires
            old(self).wf(),
            old(self).time_ok(now),
        ensures
            final(self).wf(),
            final(self).time_ok(now),
            final(self).capacity() == old(self).capacity(),
            ({
                let avail = if old(self).capacity() > window_total(old(self).records(), now as int) {
                    old(self).capacity() - window_total(old(self).records(), now as int)
                } else {
                    0
                };
                let pruned = old(self).records().skip(
                    stale_prefix_len(old(self).records(), now as int),
                );
                if old(self).queued_sizes().len() == 0 && packet.size <= avail {
                    &&& match r {
                        ThrottlerResult::DirectPacket(p) => {
                            &&& p.size == packet.size
                            &&& final(self).records() == pruned.push(
                                (SentPacket { sent_date: now, sent_size: p.size }),
                            )
                        },
                        _ => false,
                    }
                    &&& final(self).queued_sizes() == old(self).queued_sizes()
                } else {
                    &&& r is Throttling
                    &&& final(self).records() == pruned
                    &&& final(self).queued_sizes() == old(self).queued_sizes().push(
                        packet.size as int,
                    )
                }
            }),
    {
        let available_space = self.analyzer.get_available_space(now);
        if self.queue.len() == 0 && packet.size <= available_space {
            self.analyzer.data_was_sent(packet.size, now);
            return ThrottlerResult::DirectPacket(packet);
        }
        self.queue.push(packet);
        proof {
            assert(self.queue@.map(|i: int, p: Packet| p.size as int) =~= old(
                self,
            ).queued_sizes().push(packet.size as int));
        }
        ThrottlerResult::Throttling
    }

    /// Handles one control event at time `now`: an `Enqueue` behaves as
    /// `enqueue`, a `Dispose` drops everything still queued and reports
    /// `NoData`.
    pub fn handle_command(&mut self, command: ThrottlerCommand, now: u64) -> (r: ThrottlerResult)
        requires
            old(self).wf(),
            old(self).time_ok(now),
        ensures
            final(self).wf(),
            final(self).capacity() == old(self).capacity(),
            match command {
                ThrottlerCommand::Enqueue(packet) => {
                    let avail = if old(self).capacity() > window_total(
                        old(self).records(),
                        now as int,
                    ) {
                        old(self).capacity() - window_total(old(self).records(), now as int)
                    } else {
                        0
                    };
                    let pruned = old(self).records().skip(
                        stale_prefix_len(old(self).records(), now as int),
                    );
                    if old(self).queued_sizes().len() == 0 && packet.size <= avail {
                        &&& match r {
                            ThrottlerResult::DirectPacket(p) => {
                                &&& p.size == packet.size
                                &&& final(self).records() == pruned.push(
                                    (SentPacket { sent_date: now, sent_size: p.size }),
                                )
                            },
                            _ => false,
                        }
                        &&& final(self).queued_sizes() == old(self).queued_sizes()
                    } else {
                        &&& r is Throttling
                        &&& final(self).records() == pruned
                        &&& final(self).queued_sizes() == old(self).queued_sizes().push(
                            packet.size as int,
                        )
                    }
                },
                ThrottlerCommand::Dispose => {
                    &&& r is NoData
                    &&& final(self).queued_sizes().len() == 0
                    &&& final(self).records() == old(self).records()
                },
            },
    {
        match command {
            ThrottlerCommand::Enqueue(packet) => self.enqueue(packet, now),
            ThrottlerCommand::Dispose => {
                self.dispose();
                ThrottlerResult::NoData
            },
        }
    }

    /// Handles a `Dispose` event: everything still queued is dropped.
    pub fn dispose(&mut self)
        ensures
            final(self).wf() == old(self).wf(),
            final(self).queued_sizes().len() == 0,
            final(self).records() == old(self).records(),
            final(self).capacity() == old(self).capacity(),
    {
        self.queue.clear();
        proof {
            assert(self.queue@.map(|i: int, p: Packet| p.size as int) =~= Seq::<int>::empty());
        }
    }
}

} // verus!
