//! The filler engine: owns the send history of one connection (real data and
//! filler alike), decides when synthetic bytes must be sent to keep the
//! apparent outbound rate near the target, and batches aged history into
//! bounded usage reports.

use vstd::prelude::*;
use crate::objects::{HotPotatoInfo, Packet, SentPacket, MAX_STAT_COUNT, ONE_PACKET_MAX_SIZE};

verus! {

/// Records at least this old (in milliseconds) are drained into reports.
pub const OLD_AGE_MS: u64 = 100;

/// No filler is emitted while the available space is at or below this.
pub const MIN_BYTES_TO_FILL: usize = 1024;

/// The fixed size of every filler packet: a small constant trickle, never
/// sized to fill the whole gap, so filler cannot burst the channel.
pub const FILLER_PACKET_SIZE: usize = 1024;

/// One entry of send history: when, how many bytes, and on which channel.
#[derive(Clone, Copy, PartialEq, Eq, Structural, Debug)]
pub struct SentRecord {
    pub sent_date: u64,
    pub sent_size: usize,
    pub is_filler: bool,
}

/// The send record as a report entry.
pub open spec fn record_packet(r: SentRecord) -> SentPacket {
    SentPacket { sent_date: r.sent_date, sent_size: r.sent_size }
}

/// Record timestamps never decrease along the queue.
pub open spec fn records_sorted(s: Seq<SentRecord>) -> bool {
    forall|i: int, j: int|
        0 <= i <= j < s.len() ==> (#[trigger] s[i]).sent_date <= (#[trigger] s[j]).sent_date
}

/// A record was sent more than `OLD_AGE_MS` before `now`.
pub open spec fn is_old(now: int, sent_date: int) -> bool {
    now - sent_date > OLD_AGE_MS
}

/// A record was sent within the last `OLD_AGE_MS` before `now`.
pub open spec fn is_recent(now: int, sent_date: int) -> bool {
    now - sent_date < OLD_AGE_MS
}

/// Sum of all record sizes.
pub open spec fn total_bytes(s: Seq<SentRecord>) -> int
    decreases s.len(),
{
    if s.len() == 0 {
        0
    } else {
        total_bytes(s.drop_last()) + s.last().sent_size
    }
}

/// Sum of the sizes of the given kind's records sent within the last
/// `OLD_AGE_MS` before `now`.
pub open spec fn sum_recent(s: Seq<SentRecord>, now: int, filler: bool) -> int
    decreases s.len(),
{
    if s.len() == 0 {
        0
    } else {
        sum_recent(s.drop_last(), now, filler) + if s.last().is_filler == filler && is_recent(
            now,
            s.last().sent_date as int,
        ) {
            s.last().sent_size as int
        } else {
            0
        }
    }
}

/// How many of the given kind's records are old at time `now`.
pub open spec fn count_old(s: Seq<SentRecord>, now: int, filler: bool) -> int
    decreases s.len(),
{
    if s.len() == 0 {
        0
    } else {
        count_old(s.drop_last(), now, filler) + if s.last().is_filler == filler && is_old(
            now,
            s.last().sent_date as int,
        ) {
            1int
        } else {
            0
        }
    }
}

/// The report entries among `s` that belong to the given channel, in order.
pub open spec fn reported_packets(s: Seq<SentRecord>, filler: bool) -> Seq<SentPacket>
    decreases s.len(),
{
    if s.len() == 0 {
        Seq::empty()
    } else if s.last().is_filler == filler {
        reported_packets(s.drop_last(), filler).push(record_packet(s.last()))
    } else {
        reported_packets(s.drop_last(), filler)
    }
}

/// How many leading records a drain at time `now` takes, starting from the
/// given per-kind counts: old records leave from the front until a record is
/// too young, the queue is empty, or one kind reaches `MAX_STAT_COUNT`.
pub open spec fn drain_len(s: Seq<SentRecord>, now: int, d: int, f: int) -> int
    decreases s.len(),
{
    if s.len() == 0 || !is_old(now, s[0].sent_date as int) {
        0
    } else {
        let d2 = if s[0].is_filler {
            d
        } else {
            d + 1
        };
        let f2 = if s[0].is_filler {
            f + 1
        } else {
            f
        };
        if d2 == MAX_STAT_COUNT || f2 == MAX_STAT_COUNT {
            1
        } else {
            1 + drain_len(s.drop_first(), now, d2, f2)
        }
    }
}

pub proof fn lemma_total_bytes_nonneg(s: Seq<SentRecord>)
    ensures
        total_bytes(s) >= 0,
    decreases s.len(),
{
    if s.len() > 0 {
        lemma_total_bytes_nonneg(s.drop_last());
    }
}

pub proof fn lemma_total_bytes_drop_first(s: Seq<SentRecord>)
    requires
        s.len() > 0,
    ensures
        total_bytes(s) == s[0].sent_size + total_bytes(s.drop_first()),
    decreases s.len(),
{
    if s.len() == 1 {
        assert(s.drop_first() =~= Seq::<SentRecord>::empty());
        assert(s.drop_last() =~= Seq::<SentRecord>::empty());
        assert(s.last() == s[0]);
    } else {
        lemma_total_bytes_drop_first(s.drop_last());
        assert(s.drop_last()[0] == s[0]);
        assert(s.drop_last().drop_first() =~= s.drop_first().drop_last());
        assert(s.drop_first().last() == s.last());
        assert(total_bytes(s.drop_first()) == total_bytes(s.drop_first().drop_last())
            + s.drop_first().last().sent_size);
    }
}

/// A prefix never sums to more than the whole queue.
pub proof fn lemma_total_bytes_take_le(s: Seq<SentRecord>, j: int)
    requires
        0 <= j <= s.len(),
    ensures
        total_bytes(s.take(j)) <= total_bytes(s),
    decreases s.len() - j,
{
    if j == s.len() {
        assert(s.take(j) =~= s);
    } else {
        lemma_total_bytes_take_le(s, j + 1);
        assert(s.take(j + 1).drop_last() =~= s.take(j));
        assert(total_bytes(s.take(j + 1)) == total_bytes(s.take(j)) + s[j].sent_size);
    }
}

/// The two kinds' recent sums together never exceed the total.
pub proof fn lemma_sum_recent_pair_le(s: Seq<SentRecord>, now: int)
    ensures
        sum_recent(s, now, false) + sum_recent(s, now, true) <= total_bytes(s),
    decreases s.len(),
{
    if s.len() > 0 {
        lemma_sum_recent_pair_le(s.drop_last(), now);
    }
}

/// A prefix never counts more old records than the whole queue.
pub proof fn lemma_count_old_take_le(s: Seq<SentRecord>, now: int, filler: bool, j: int)
    requires
        0 <= j <= s.len(),
    ensures
        count_old(s.take(j), now, filler) <= count_old(s, now, filler),
    decreases s.len() - j,
{
    if j == s.len() {
        assert(s.take(j) =~= s);
    } else {
        lemma_count_old_take_le(s, now, filler, j + 1);
        assert(s.take(j + 1).drop_last() =~= s.take(j));
        assert(count_old(s.take(j + 1), now, filler) == count_old(s.take(j), now, filler)
            + if s[j].is_filler == filler && is_old(now, s[j].sent_date as int) {
            1int
        } else {
            0
        });
    }
}

/// The send time of the first record (in queue order) still inside the
/// last `OLD_AGE_MS` before `now`, if any record is.
pub open spec fn first_recent(s: Seq<SentRecord>, now: int) -> Option<u64>
    decreases s.len(),
{
    if s.len() == 0 {
        None
    } else if first_recent(s.drop_last(), now) is Some {
        first_recent(s.drop_last(), now)
    } else if is_recent(now, s.last().sent_date as int) {
        Some(s.last().sent_date)
    } else {
        None
    }
}

/// What `get_available_space` answers at time `now` for the given history
/// and target speed (bytes per millisecond): the window's capacity —
/// speed times the span since the oldest record still inside the window —
/// minus the bytes of both kinds sent within the window, floored at zero
/// and clamped to one packet's maximum size. When nothing was sent within
/// the window the answer is zero: an idle channel accrues no space and so
/// draws no filler. A 50% speed-up allowance applies to the rate while
/// the window's data outweighs its filler more than five to one.
pub open spec fn spec_available_space(s: Seq<SentRecord>, speed: int, now: int) -> int {
    let data_recent = sum_recent(s, now, false);
    let filler_recent = sum_recent(s, now, true);
    if speed <= 0 {
        0
    } else {
        match first_recent(s, now) {
            None => 0,
            Some(left) => {
                let eff = if data_recent > 5 * filler_recent {
                    speed + speed / 2
                } else {
                    speed
                };
                let delta = eff * (now - left) - (data_recent + filler_recent);
                if delta <= 0 {
                    0
                } else if delta > ONE_PACKET_MAX_SIZE {
                    ONE_PACKET_MAX_SIZE as int
                } else {
                    delta
                }
            },
        }
    }
}

/// The filler engine: a queue of send records of both kinds (oldest first)
/// and the current target speed in bytes per millisecond.
pub struct Filler {
    queue: Vec<SentRecord>,
    speed: usize,
}

impl Filler {
    /// The send records currently held, oldest first.
    pub closed spec fn records(&self) -> Seq<SentRecord> {
        self.queue@
    }

    /// The current target speed, in bytes per millisecond.
    pub closed spec fn speed(&self) -> int {
        self.speed as int
    }

    /// Records sorted by time, small enough to sum, each within one buffer.
    pub open spec fn wf(&self) -> bool {
        &&& records_sorted(self.records())
        &&& total_bytes(self.records()) <= usize::MAX
        &&& forall|i: int|
            0 <= i < self.records().len() ==> (#[trigger] self.records()[i]).sent_size
                <= ONE_PACKET_MAX_SIZE
    }

    /// `now` does not lie before the newest record.
    pub open spec fn time_ok(&self, now: u64) -> bool {
        self.records().len() == 0 || self.records().last().sent_date <= now
    }

    /// The bytes the history currently holds in total: what a caller
    /// checks against `usize::MAX` before recording more.
    pub fn recorded_bytes(&self) -> (r: usize)
        requires
            self.wf(),
        ensures
            r == total_bytes(self.records()),
    {
        let ghost s = self.queue@;
        proof {
            assert(s.take(0) =~= Seq::<SentRecord>::empty());
        }
        let mut sum: usize = 0;
        let mut i: usize = 0;
        while i < self.queue.len()
            invariant
                self.queue@ == s,
                i <= s.len(),
                total_bytes(s) <= usize::MAX,
                sum == total_bytes(s.take(i as int)),
            decreases s.len() - i,
        {
            proof {
                lemma_total_bytes_take_le(s, i + 1);
                assert(s.take(i + 1).drop_last() =~= s.take(i as int));
                assert(s.take(i + 1).last() == s[i as int]);
            }
            sum = sum + self.queue[i].sent_size;
            i = i + 1;
        }
        proof {
            assert(s.take(s.len() as int) =~= s);
        }
        sum
    }

    /// A fresh engine with no history and the given target speed.
    pub fn new(speed: usize) -> (r: Filler)
        ensures
            r.wf(),
            r.records().len() == 0,
            r.speed() == speed,
    {
        Filler { queue: Vec::new(), speed }
    }

    /// Changes the target speed for later decisions; history is kept.
    pub fn set_speed(&mut self, speed: usize)
        ensures
            final(self).records() == old(self).records(),
            final(self).speed() == speed,
            old(self).wf() ==> final(self).wf(),
    {
        self.speed = speed;
    }

    /// Appends one real-data send record at time `now`.
    pub fn data_was_sent(&mut self, amount: usize, now: u64)
        requires
            old(self).wf(),
            old(self).time_ok(now),
            amount <= ONE_PACKET_MAX_SIZE,
            total_bytes(old(self).records()) + amount <= usize::MAX,
        ensures
            final(self).wf(),
            final(self).records() == old(self).records().push(
                (SentRecord { sent_date: now, sent_size: amount, is_filler: false }),
            ),
            final(self).speed() == old(self).speed(),
    {
        self.push_record(SentRecord { sent_date: now, sent_size: amount, is_filler: false });
    }

    /// Appends one filler send record at time `now`.
    pub fn filler_was_sent(&mut self, amount: usize, now: u64)
        requires
            old(self).wf(),
            old(self).time_ok(now),
            amount <= ONE_PACKET_MAX_SIZE,
            total_bytes(old(self).records()) + amount <= usize::MAX,
        ensures
            final(self).wf(),
            final(self).records() == old(self).records().push(
                (SentRecord { sent_date: now, sent_size: amount, is_filler: true }),
            ),
            final(self).speed() == old(self).speed(),
    {
        self.push_record(SentRecord { sent_date: now, sent_size: amount, is_filler: true });
    }

    fn push_record(&mut self, rec: SentRecord)
        requires
            old(self).wf(),
            old(self).time_ok(rec.sent_date),
            rec.sent_size <= ONE_PACKET_MAX_SIZE,
            total_bytes(old(self).records()) + rec.sent_size <= usize::MAX,
        ensures
            final(self).wf(),
            final(self).records() == old(self).records().push(rec),
            final(self).speed() == old(self).speed(),
    {
        self.queue.push(rec);
        proof {
            let s = self.queue@;
            assert(s.drop_last() =~= old(self).records());
            assert(total_bytes(s) == total_bytes(old(self).records()) + rec.sent_size);
        }
    }

    /// Drains records older than `OLD_AGE_MS` from the front of the queue
    /// into a fresh usage report, at most `MAX_STAT_COUNT` per kind; the
    /// drain stops early the moment one kind fills up, so no record is lost.
    pub fn clean(&mut self, now: u64) -> (r: HotPotatoInfo)
        requires
            old(self).wf(),
            old(self).time_ok(now),
        ensures
            final(self).wf(),
            final(self).time_ok(now),
            final(self).speed() == old(self).speed(),
            ({
                let k = drain_len(old(self).records(), now as int, 0, 0);
                &&& final(self).records() == old(self).records().skip(k)
                &&& r.data_packets@ == reported_packets(old(self).records().take(k), false)
                &&& r.filler_packets@ == reported_packets(old(self).records().take(k), true)
            }),
            r.target_speed == 0,
            r.wf(),
    {
        let ghost orig = self.queue@;
        let ghost speed0 = self.speed;
        let ghost mut j: int = 0;
        let mut result = HotPotatoInfo::default();
        proof {
            assert(orig.take(0) =~= Seq::<SentRecord>::empty());
        }
        loop
            invariant_except_break
                result.data_packets@.len() < MAX_STAT_COUNT,
                result.filler_packets@.len() < MAX_STAT_COUNT,
                drain_len(orig, now as int, 0, 0) == j + drain_len(
                    self.queue@,
                    now as int,
                    result.data_packets@.len() as int,
                    result.filler_packets@.len() as int,
                ),
            invariant
                self.speed == speed0,
                0 <= j <= orig.len(),
                self.queue@ == orig.skip(j),
                records_sorted(self.queue@),
                total_bytes(self.queue@) <= usize::MAX,
                forall|i: int|
                    0 <= i < self.queue@.len() ==> (#[trigger] self.queue@[i]).sent_size
                        <= ONE_PACKET_MAX_SIZE,
                orig.len() == 0 || orig.last().sent_date <= now,
                result.data_packets@ == reported_packets(orig.take(j), false),
                result.filler_packets@ == reported_packets(orig.take(j), true),
                forall|i: int|
                    0 <= i < result.data_packets@.len()
                        ==> (#[trigger] result.data_packets@[i]).sent_size <= ONE_PACKET_MAX_SIZE,
                forall|i: int|
                    0 <= i < result.filler_packets@.len()
                        ==> (#[trigger] result.filler_packets@[i]).sent_size
                        <= ONE_PACKET_MAX_SIZE,
                result.target_speed == 0,
            ensures
                self.speed == speed0,
                self.queue@ == orig.skip(drain_len(orig, now as int, 0, 0)),
                records_sorted(self.queue@),
                total_bytes(self.queue@) <= usize::MAX,
                forall|i: int|
                    0 <= i < self.queue@.len() ==> (#[trigger] self.queue@[i]).sent_size
                        <= ONE_PACKET_MAX_SIZE,
                ({
                    let k = drain_len(orig, now as int, 0, 0);
                    &&& result.data_packets@ == reported_packets(orig.take(k), false)
                    &&& result.filler_packets@ == reported_packets(orig.take(k), true)
                }),
                result.data_packets@.len() <= MAX_STAT_COUNT,
                result.filler_packets@.len() <= MAX_STAT_COUNT,
                forall|i: int|
                    0 <= i < result.data_packets@.len()
                        ==> (#[trigger] result.data_packets@[i]).sent_size <= ONE_PACKET_MAX_SIZE,
                forall|i: int|
                    0 <= i < result.filler_packets@.len()
                        ==> (#[trigger] result.filler_packets@[i]).sent_size
                        <= ONE_PACKET_MAX_SIZE,
                result.target_speed == 0,
            decreases self.queue@.len(),
        {
            let ghost pre = self.queue@;
            let ghost d0 = result.data_packets@.len() as int;
            let ghost f0 = result.filler_packets@.len() as int;
            if self.queue.len() == 0 {
                break;
            }
            let first = self.queue[0];
            if !(now >= first.sent_date && now - first.sent_date > OLD_AGE_MS) {
                proof {
                    assert(!is_old(now as int, pre[0].sent_date as int));
                    assert(drain_len(pre, now as int, d0, f0) == 0);
                }
                break;
            }
            proof {
                assert(first == orig[j]);
                assert(is_old(now as int, pre[0].sent_date as int));
                lemma_total_bytes_drop_first(pre);
            }
            self.queue.remove(0);
            proof {
                assert(self.queue@ =~= orig.skip(j + 1));
                assert(orig.take(j + 1).drop_last() =~= orig.take(j));
                assert(orig.take(j + 1).last() == orig[j]);
                assert(pre.drop_first() =~= self.queue@);
            }
            if !first.is_filler {
                result.data_packets.push(SentPacket {
                    sent_date: first.sent_date,
                    sent_size: first.sent_size,
                });
            } else {
                result.filler_packets.push(SentPacket {
                    sent_date: first.sent_date,
                    sent_size: first.sent_size,
                });
            }
            proof {
                j = j + 1;
                assert(result.data_packets@ =~= reported_packets(orig.take(j), false));
                assert(result.filler_packets@ =~= reported_packets(orig.take(j), true));
                // One drain step: the record at the front leaves, and the
                // per-kind counts advance.
                let d2: int = if pre[0].is_filler {
                    d0
                } else {
                    d0 + 1
                };
                let f2: int = if pre[0].is_filler {
                    f0 + 1
                } else {
                    f0
                };
                assert(result.data_packets@.len() == d2);
                assert(result.filler_packets@.len() == f2);
                assert(drain_len(pre, now as int, d0, f0) == if d2 == MAX_STAT_COUNT || f2
                    == MAX_STAT_COUNT {
                    1int
                } else {
                    1 + drain_len(pre.drop_first(), now as int, d2, f2)
                });
            }
            if result.data_packets.len() == MAX_STAT_COUNT || result.filler_packets.len()
                == MAX_STAT_COUNT {
                proof {
                    assert(drain_len(pre, now as int, d0, f0) == 1);
                    assert(drain_len(orig, now as int, 0, 0) == j);
                }
                break;
            }
        }
        result
    }

    /// A cheap pre-check that triggers the drain early: scans for records
    /// already old enough to leave and drains as `clean` does as soon as
    /// either kind comes within one of the report bound, so that a later
    /// drain can never overflow a report and lose a record.
    pub fn clean_almost_full(&mut self, now: u64) -> (r: Option<HotPotatoInfo>)
        requires
            old(self).wf(),
            old(self).time_ok(now),
        ensures
            final(self).wf(),
            final(self).time_ok(now),
            final(self).speed() == old(self).speed(),
            ({
                let odc = count_old(old(self).records(), now as int, false);
                let ofc = count_old(old(self).records(), now as int, true);
                if odc >= MAX_STAT_COUNT - 1 || ofc >= MAX_STAT_COUNT - 1 {
                    let k = drain_len(old(self).records(), now as int, 0, 0);
                    match r {
                        Some(rep) => {
                            &&& final(self).records() == old(self).records().skip(k)
                            &&& rep.data_packets@ == reported_packets(
                                old(self).records().take(k),
                                false,
                            )
                            &&& rep.filler_packets@ == reported_packets(
                                old(self).records().take(k),
                                true,
                            )
                            &&& rep.target_speed == 0
                            &&& rep.wf()
                        },
                        None => false,
                    }
                } else {
                    &&& r is None
                    &&& final(self).records() == old(self).records()
                }
            }),
    {
        let ghost s = self.queue@;
        proof {
            assert(s.take(0) =~= Seq::<SentRecord>::empty());
        }
        let mut data_count: usize = 0;
        let mut filler_count: usize = 0;
        let mut i: usize = 0;
        while i < self.queue.len()
            invariant
                old(self).wf(),
                old(self).time_ok(now),
                self.queue@ == old(self).queue@,
                self.speed == old(self).speed,
                self.queue@ == s,
                i <= s.len(),
                data_count == count_old(s.take(i as int), now as int, false),
                filler_count == count_old(s.take(i as int), now as int, true),
                data_count < MAX_STAT_COUNT - 1,
                filler_count < MAX_STAT_COUNT - 1,
            decreases s.len() - i,
        {
            let rec = self.queue[i];
            proof {
                lemma_count_old_take_le(s, now as int, false, i + 1);
                lemma_count_old_take_le(s, now as int, true, i + 1);
                assert(s.take(i + 1).drop_last() =~= s.take(i as int));
                assert(s.take(i + 1).last() == s[i as int]);
            }
            if now >= rec.sent_date && now - rec.sent_date > OLD_AGE_MS {
                proof {
                    assert(is_old(now as int, rec.sent_date as int));
                }
                if !rec.is_filler {
                    data_count = data_count + 1;
                } else {
                    filler_count = filler_count + 1;
                }
                if data_count >= MAX_STAT_COUNT - 1 || filler_count >= MAX_STAT_COUNT - 1 {
                    return Some(self.clean(now));
                }
            } else {
                proof {
                    assert(!is_old(now as int, rec.sent_date as int));
                }
            }
            i = i + 1;
        }
        proof {
            assert(s.take(s.len() as int) =~= s);
        }
        None
    }

    /// How many more bytes could go out right now without overshooting the
    /// target rate; see `spec_available_space` for the exact formula. Zero
    /// while nothing was sent within the last `OLD_AGE_MS`.
    pub fn get_available_space(&self, now: u64) -> (r: usize)
        requires
            self.wf(),
            self.time_ok(now),
        ensures
            r == spec_available_space(self.records(), self.speed(), now as int),
            r <= ONE_PACKET_MAX_SIZE,
    {
        let ghost s = self.queue@;
        if self.speed == 0 {
            return 0;
        }
        // One pass finds the oldest record still inside the window and the
        // window's per-kind byte sums.
        proof {
            assert(s.take(0) =~= Seq::<SentRecord>::empty());
            lemma_total_bytes_nonneg(s);
        }
        let mut left: Option<u64> = None;
        let mut data_recent: usize = 0;
        let mut filler_recent: usize = 0;
        let mut i: usize = 0;
        while i < self.queue.len()
            invariant
                self.queue@ == s,
                i <= s.len(),
                total_bytes(s) <= usize::MAX,
                records_sorted(s),
                s.len() == 0 || s.last().sent_date <= now,
                left == first_recent(s.take(i as int), now as int),
                match left {
                    Some(l) => now >= l && is_recent(now as int, l as int),
                    None => true,
                },
                data_recent == sum_recent(s.take(i as int), now as int, false),
                filler_recent == sum_recent(s.take(i as int), now as int, true),
                data_recent + filler_recent <= total_bytes(s),
            decreases s.len() - i,
        {
            let rec = self.queue[i];
            proof {
                assert(s.take(i + 1).drop_last() =~= s.take(i as int));
                assert(s.take(i + 1).last() == s[i as int]);
                lemma_sum_recent_pair_le(s.take(i + 1), now as int);
                lemma_total_bytes_take_le(s, i + 1);
            }
            if now >= rec.sent_date && now - rec.sent_date < OLD_AGE_MS {
                proof {
                    assert(is_recent(now as int, rec.sent_date as int));
                }
                if left.is_none() {
                    left = Some(rec.sent_date);
                }
                if !rec.is_filler {
                    data_recent = data_recent + rec.sent_size;
                } else {
                    filler_recent = filler_recent + rec.sent_size;
                }
            } else {
                proof {
                    // Sortedness keeps every record at or before `now`, so
                    // the failed age test means the record is simply old.
                    assert(rec.sent_date <= s.last().sent_date);
                    assert(now >= rec.sent_date);
                    assert(!is_recent(now as int, rec.sent_date as int));
                }
            }
            i = i + 1;
        }
        proof {
            assert(s.take(s.len() as int) =~= s);
        }
        let left_date = match left {
            // An idle window accrues no space.
            None => {
                return 0;
            },
            Some(l) => l,
        };
        let duration = now - left_date;
        let eff: u128 = if (data_recent as u128) > 5 * (filler_recent as u128) {
            self.speed as u128 + (self.speed / 2) as u128
        } else {
            self.speed as u128
        };
        let ghost eff_i = eff as int;
        let ghost duration_i = duration as int;
        proof {
            assert(duration < OLD_AGE_MS);
            assert(eff_i * duration_i < 0x40000000000000000 * 0x80) by (nonlinear_arith)
                requires
                    0 <= eff_i < 0x40000000000000000,
                    0 <= duration_i < 0x80,
            ;
            assert(eff_i * duration_i >= 0) by (nonlinear_arith)
                requires
                    eff_i >= 0,
                    duration_i >= 0,
            ;
        }
        let capacity: u128 = eff * (duration as u128);
        let young: u128 = (data_recent as u128) + (filler_recent as u128);
        if capacity <= young {
            return 0;
        }
        let delta: u128 = capacity - young;
        if delta > ONE_PACKET_MAX_SIZE as u128 {
            ONE_PACKET_MAX_SIZE
        } else {
            delta as usize
        }
    }

    /// Emits at most one small fixed-size filler packet: none while the
    /// available space is at or below `MIN_BYTES_TO_FILL`, exactly one
    /// zero-filled packet of `FILLER_PACKET_SIZE` bytes otherwise.
    pub fn get_filler_packet(&self, now: u64) -> (r: Option<Packet>)
        requires
            self.wf(),
            self.time_ok(now),
        ensures
            ({
                let avail = spec_available_space(self.records(), self.speed(), now as int);
                match r {
                    Some(p) => {
                        &&& avail > MIN_BYTES_TO_FILL
                        &&& p.wf()
                        &&& p.size == FILLER_PACKET_SIZE
                        &&& forall|i: int| 0 <= i < p.buf@.len() ==> p.buf@[i] == 0u8
                    },
                    None => avail <= MIN_BYTES_TO_FILL,
                }
            }),
    {
        let bytes_to_fill = self.get_available_space(now);
        if bytes_to_fill > MIN_BYTES_TO_FILL {
            return Some(Packet::new_packet(FILLER_PACKET_SIZE));
        }
        None
    }
}

} // verus!
