//! The adaptive speed corrector: consumes per-connection usage reports,
//! keeps a five-second rolling history per connection, and emits rate
//! commands with hysteresis around an 80/20 data-to-filler target and
//! asymmetric timing (react fast upward, slowly downward), plus the
//! helpers that turn speeds into human-readable strings.

use vstd::prelude::*;
use vstd::string::StringExecFns;
use crate::objects::{HotPotatoInfo, SentPacket, MAX_STAT_COUNT, ONE_PACKET_MAX_SIZE};

verus! {

/// Steady-state share of real data in the outbound traffic, in percent.
pub const TARGET_PERCENT: usize = 80;

/// Free play around the target: no action inside the band.
pub const FREE_PLAY: usize = 2;

/// Below this data share the speed is decreased.
pub const DOWN_TRIGGER: usize = TARGET_PERCENT - FREE_PLAY;

/// Above this data share the speed is increased.
pub const UP_TRIGGER: usize = TARGET_PERCENT + FREE_PLAY;

/// Fixed increment of one speed increase, in bytes per millisecond.
pub const UP_ACCELERATION: usize = 70;

/// Fixed decrement of one speed decrease, in bytes per millisecond.
pub const DOWN_ACCELERATION: usize = 50;

/// Below this speed shaping is switched off rather than commanded.
pub const SHUTDOWN_SPEED: usize = 100 * 1024 / 1000;

/// The speed first commanded when shaping turns on and the link has shown
/// it can carry more than this.
pub const ENABLE_SPEED: usize = 10 * 1024 * 1024 / 1000;

/// The rolling history window, in milliseconds.
pub const LONG_TERM_MS: u64 = 5000;

/// Least time between a correction and a later increase.
pub const INCREASE_SPEED_PERIOD_MS: u64 = 500;

/// Least time between a correction and a later decrease.
pub const DECREASE_SPEED_PERIOD_MS: u64 = 10000;

pub const PERCENT_100: usize = 100;

/// Boundary for the speed display: above it, megabits are shown.
pub const M_COND: usize = (1024 * 1024 / 10) / 1000;

pub const TO_MB: usize = 1024 * 1024;

pub const TO_KB: usize = 1024;

/// Most bytes one usage report can carry per kind.
pub const MAX_SPAN_BYTES: usize = MAX_STAT_COUNT * ONE_PACKET_MAX_SIZE;

/// What the corrector tells a proxy worker.
#[derive(Clone, Copy, PartialEq, Eq, Structural, Debug)]
pub enum SpeedCorrectorCommand {
    /// Stop shaping: fall back to plain pass-through.
    SwitchOff,
    /// Hold this target speed, in bytes per millisecond.
    SetSpeed(usize),
}

/// A measured speed over a period and the share of real data in it.
#[derive(Clone, Copy, PartialEq, Eq, Structural, Debug)]
pub struct SpeedForPeriod {
    pub speed: usize,
    pub data_percent: usize,
}

/// One history entry: the bytes one usage report carried, by kind, and
/// when the report arrived (milliseconds on a monotonic clock).
#[derive(Clone, Copy, PartialEq, Eq, Structural, Debug)]
pub struct TimeSpanSentDataInfo {
    pub from: u64,
    pub data_size: usize,
    pub filler_size: usize,
}

/// The last command that set a speed: its value and when it was given.
#[derive(Clone, Copy, PartialEq, Eq, Structural, Debug)]
pub struct SpeedSetupParam {
    pub value: usize,
    pub command_time: u64,
}

/// Sum of data and filler bytes over the history entries.
pub open spec fn spans_total(s: Seq<TimeSpanSentDataInfo>) -> int
    decreases s.len(),
{
    if s.len() == 0 {
        0
    } else {
        spans_total(s.drop_last()) + s.last().data_size + s.last().filler_size
    }
}

/// Sum of data bytes over the history entries.
pub open spec fn spans_data(s: Seq<TimeSpanSentDataInfo>) -> int
    decreases s.len(),
{
    if s.len() == 0 {
        0
    } else {
        spans_data(s.drop_last()) + s.last().data_size
    }
}

/// Sum of the byte sizes of the report entries.
pub open spec fn packets_total(s: Seq<SentPacket>) -> int
    decreases s.len(),
{
    if s.len() == 0 {
        0
    } else {
        packets_total(s.drop_last()) + s.last().sent_size
    }
}

/// History entry timestamps never decrease.
pub open spec fn spans_sorted(s: Seq<TimeSpanSentDataInfo>) -> bool {
    forall|i: int, j: int|
        0 <= i <= j < s.len() ==> (#[trigger] s[i]).from <= (#[trigger] s[j]).from
}

/// An entry lies in the measured range `[thr, right]`.
pub open spec fn span_in_range(sp: TimeSpanSentDataInfo, right: int, thr: int) -> bool {
    thr <= sp.from <= right
}

/// How many leading entries lie in the measured range.
pub open spec fn range_prefix_len(s: Seq<TimeSpanSentDataInfo>, right: int, thr: int) -> int
    decreases s.len(),
{
    if s.len() == 0 || !span_in_range(s[0], right, thr) {
        0
    } else {
        1 + range_prefix_len(s.drop_first(), right, thr)
    }
}

/// How many leading entries are older than the newest entry minus `window`.
pub open spec fn aged_prefix_len(s: Seq<TimeSpanSentDataInfo>, thr: int) -> int
    decreases s.len(),
{
    if s.len() == 0 || s[0].from >= thr {
        0
    } else {
        1 + aged_prefix_len(s.drop_first(), thr)
    }
}

/// What `get_speed` computes from a history: measured over the entries in
/// the range `[right - window, right]` counted from the front, where
/// `right` is the newest entry's time; at least two entries, a positive
/// time span and some bytes are needed, else nothing is measured. The
/// speed is clamped to `usize::MAX`.
pub open spec fn spec_get_speed(window: int, s: Seq<TimeSpanSentDataInfo>) -> Option<
    SpeedForPeriod,
> {
    if s.len() < 2 {
        None
    } else {
        let right = s.last().from as int;
        let thr = right - window;
        let k = range_prefix_len(s, right, thr);
        if k == 0 {
            None
        } else {
            let mills = right - s[0].from;
            let amount = spans_total(s.take(k));
            let data = spans_data(s.take(k));
            if mills == 0 || amount == 0 {
                None
            } else {
                let q = amount / mills;
                let speed = if q > usize::MAX {
                    usize::MAX as int
                } else {
                    q
                };
                Some(
                    SpeedForPeriod {
                        speed: speed as usize,
                        data_percent: (data * PERCENT_100 / amount) as usize,
                    },
                )
            }
        }
    }
}

/// The decision the corrector takes at time `now`, given the pruned
/// history and the last speed-setting command:
/// - nothing measurable: back off to `SwitchOff` if a speed stands, else
///   stay quiet;
/// - data share above `UP_TRIGGER` and `INCREASE_SPEED_PERIOD_MS` passed:
///   increase — but a measured speed below the shutdown floor switches
///   off instead (the link cannot even carry the floor), a measured speed
///   more than ~7% below the commanded one suppresses the increase (the
///   link, not the shaping, is the bottleneck), and from the off state
///   the first step is capped at `ENABLE_SPEED`;
/// - data share below `DOWN_TRIGGER` and `DECREASE_SPEED_PERIOD_MS`
///   passed: decrease by `DOWN_ACCELERATION`, or `SwitchOff` when that
///   would fall below the shutdown floor.
pub open spec fn spec_decide(
    s: Seq<TimeSpanSentDataInfo>,
    last: Option<SpeedSetupParam>,
    now: int,
) -> Option<SpeedCorrectorCommand> {
    match spec_get_speed(LONG_TERM_MS as int, s) {
        Some(lt) => {
            let can_up = last is None || last->0.command_time + INCREASE_SPEED_PERIOD_MS < now;
            let can_down = last is None || last->0.command_time + DECREASE_SPEED_PERIOD_MS < now;
            if can_up && lt.data_percent > UP_TRIGGER {
                if lt.speed < SHUTDOWN_SPEED {
                    if last is Some {
                        Some(SpeedCorrectorCommand::SwitchOff)
                    } else {
                        None
                    }
                } else if last is Some && (lt.speed as int) < last->0.value * 93 / (
                PERCENT_100 as int) {
                    None
                } else if last is None && lt.speed > ENABLE_SPEED {
                    Some(SpeedCorrectorCommand::SetSpeed(ENABLE_SPEED))
                } else {
                    let v = if lt.speed + UP_ACCELERATION > usize::MAX {
                        usize::MAX as int
                    } else {
                        lt.speed + UP_ACCELERATION
                    };
                    Some(SpeedCorrectorCommand::SetSpeed(v as usize))
                }
            } else if can_down && lt.data_percent < DOWN_TRIGGER {
                if lt.speed < SHUTDOWN_SPEED + DOWN_ACCELERATION {
                    Some(SpeedCorrectorCommand::SwitchOff)
                } else {
                    Some(SpeedCorrectorCommand::SetSpeed((lt.speed - DOWN_ACCELERATION) as usize))
                }
            } else {
                None
            }
        },
        None => if last is Some {
            Some(SpeedCorrectorCommand::SwitchOff)
        } else {
            None
        },
    }
}

/// How a decision updates the last speed-setting command.
pub open spec fn spec_record(
    last: Option<SpeedSetupParam>,
    cmd: Option<SpeedCorrectorCommand>,
    now: int,
) -> Option<SpeedSetupParam> {
    match cmd {
        None => last,
        Some(SpeedCorrectorCommand::SwitchOff) => None,
        Some(SpeedCorrectorCommand::SetSpeed(v)) => Some(
            SpeedSetupParam { value: v, command_time: now as u64 },
        ),
    }
}

pub proof fn lemma_spans_total_nonneg(s: Seq<TimeSpanSentDataInfo>)
    ensures
        spans_total(s) >= 0,
        spans_data(s) >= 0,
        spans_data(s) <= spans_total(s),
    decreases s.len(),
{
    if s.len() > 0 {
        lemma_spans_total_nonneg(s.drop_last());
    }
}

/// The rolling history of one connection: what each usage report carried
/// and when, plus the last speed-setting command still in force.
pub struct Info {
    sent_data: Vec<TimeSpanSentDataInfo>,
    last_speed_command: Option<SpeedSetupParam>,
}

impl Info {
    /// The history entries, oldest first.
    pub closed spec fn spans(&self) -> Seq<TimeSpanSentDataInfo> {
        self.sent_data@
    }

    /// The last speed-setting command still in force, if any.
    pub closed spec fn last_command(&self) -> Option<SpeedSetupParam> {
        self.last_speed_command
    }

    /// Entries sorted by time and each bounded by one report's capacity.
    pub open spec fn wf(&self) -> bool {
        &&& spans_sorted(self.spans())
        &&& forall|i: int|
            0 <= i < self.spans().len() ==> (#[trigger] self.spans()[i]).data_size
                <= MAX_SPAN_BYTES && self.spans()[i].filler_size <= MAX_SPAN_BYTES
    }

    /// `now` does not lie before the newest history entry.
    pub open spec fn time_ok(&self, now: u64) -> bool {
        self.spans().len() == 0 || self.spans().last().from <= now
    }

    /// How many history entries are held.
    pub fn span_count(&self) -> (r: usize)
        ensures
            r == self.spans().len(),
    {
        self.sent_data.len()
    }

    /// A fresh history: no entries, no command in force.
    pub fn new() -> (r: Info)
        ensures
            r.wf(),
            r.spans().len() == 0,
            r.last_command() is None,
    {
        Info { sent_data: Vec::new(), last_speed_command: None }
    }
}

/// Folds one usage report into the history: one entry holding the report's
/// per-kind byte totals, stamped `now`.
pub fn append_new_data(hp: &HotPotatoInfo, info: &mut Info, now: u64)
    requires
        old(info).wf(),
        old(info).time_ok(now),
        hp.wf(),
    ensures
        final(info).wf(),
        final(info).spans() == old(info).spans().push(
            (TimeSpanSentDataInfo {
                from: now,
                data_size: packets_total(hp.data_packets@) as usize,
                filler_size: packets_total(hp.filler_packets@) as usize,
            }),
        ),
        final(info).last_command() == old(info).last_command(),
{
    let data_size = sum_packet_sizes(&hp.data_packets);
    let filler_size = sum_packet_sizes(&hp.filler_packets);
    info.sent_data.push(TimeSpanSentDataInfo { from: now, data_size, filler_size });
    proof {
        assert(info.sent_data@.drop_last() =~= old(info).spans());
    }
}

/// Sum of the sizes of at most `MAX_STAT_COUNT` records, each at most
/// `ONE_PACKET_MAX_SIZE` bytes.
fn sum_packet_sizes(packets: &Vec<SentPacket>) -> (r: usize)
    requires
        packets@.len() <= MAX_STAT_COUNT,
        forall|i: int|
            0 <= i < packets@.len() ==> (#[trigger] packets@[i]).sent_size <= ONE_PACKET_MAX_SIZE,
    ensures
        r == packets_total(packets@),
        r <= MAX_SPAN_BYTES,
{
    let ghost s = packets@;
    proof {
        assert(s.take(0) =~= Seq::<SentPacket>::empty());
    }
    let mut sum: usize = 0;
    let mut i: usize = 0;
    while i < packets.len()
        invariant
            packets@ == s,
            i <= s.len(),
            s.len() <= MAX_STAT_COUNT,
            forall|k: int| 0 <= k < s.len() ==> (#[trigger] s[k]).sent_size <= ONE_PACKET_MAX_SIZE,
            sum == packets_total(s.take(i as int)),
            sum <= i * ONE_PACKET_MAX_SIZE,
        decreases s.len() - i,
    {
        proof {
            assert(s.take(i + 1).drop_last() =~= s.take(i as int));
            assert(s.take(i + 1).last() == s[i as int]);
        }
        sum = sum + packets[i].sent_size;
        i = i + 1;
    }
    proof {
        assert(s.take(s.len() as int) =~= s);
    }
    sum
}

/// Prunes history entries that lie more than `window_ms` before the newest
/// entry.
pub fn clear_old_data(info: &mut Info, window_ms: u64)
    requires
        old(info).wf(),
    ensures
        final(info).wf(),
        final(info).last_command() == old(info).last_command(),
        ({
            let s = old(info).spans();
            if s.len() == 0 {
                final(info).spans() == s
            } else {
                final(info).spans() == s.skip(aged_prefix_len(s, s.last().from - window_ms))
            }
        }),
{
    let ghost s0 = old(info).spans();
    if info.sent_data.len() == 0 {
        return ;
    }
    let back_from = info.sent_data[info.sent_data.len() - 1].from;
    let ghost thr = back_from as int - window_ms as int;
    let ghost mut pruned: int = 0;
    loop
        invariant
            thr == back_from as int - window_ms as int,
            0 <= pruned <= s0.len(),
            info.sent_data@ == s0.skip(pruned),
            info.last_speed_command == old(info).last_speed_command,
            spans_sorted(info.sent_data@),
            forall|i: int|
                0 <= i < info.sent_data@.len() ==> (#[trigger] info.sent_data@[i]).data_size
                    <= MAX_SPAN_BYTES && info.sent_data@[i].filler_size <= MAX_SPAN_BYTES,
            aged_prefix_len(s0, thr) == pruned + aged_prefix_len(info.sent_data@, thr),
        ensures
            info.sent_data@ == s0.skip(aged_prefix_len(s0, thr)),
            info.last_speed_command == old(info).last_speed_command,
            spans_sorted(info.sent_data@),
            forall|i: int|
                0 <= i < info.sent_data@.len() ==> (#[trigger] info.sent_data@[i]).data_size
                    <= MAX_SPAN_BYTES && info.sent_data@[i].filler_size <= MAX_SPAN_BYTES,
        decreases info.sent_data@.len(),
    {
        if info.sent_data.len() == 0 {
            break;
        }
        let first_from = info.sent_data[0].from;
        // The entry is older than the window when its time plus the window
        // still lies before the newest entry's time.
        if (first_from as u128) + (window_ms as u128) < (back_from as u128) {
            proof {
                assert(info.sent_data@[0].from < thr);
            }
            let ghost pre = info.sent_data@;
            info.sent_data.remove(0);
            proof {
                pruned = pruned + 1;
                assert(info.sent_data@ =~= s0.skip(pruned));
                assert(pre.drop_first() =~= info.sent_data@);
            }
        } else {
            proof {
                assert(info.sent_data@[0].from >= thr);
            }
            break;
        }
    }
}

/// Measures speed and data share over the last `window_ms` of history, as
/// `spec_get_speed` says: front entries inside `[right - window, right]`
/// are summed; fewer than two entries, an empty range, a zero time span or
/// zero bytes yield nothing.
pub fn get_speed(window_ms: u64, sent_data: &Vec<TimeSpanSentDataInfo>) -> (r: Option<
    SpeedForPeriod,
>)
    requires
        forall|i: int|
            0 <= i < sent_data@.len() ==> (#[trigger] sent_data@[i]).data_size <= MAX_SPAN_BYTES
                && sent_data@[i].filler_size <= MAX_SPAN_BYTES,
    ensures
        r == spec_get_speed(window_ms as int, sent_data@),
{
    let ghost s = sent_data@;
    if sent_data.len() < 2 {
        return None;
    }
    let right = sent_data[sent_data.len() - 1].from;
    let ghost right_i = right as int;
    let ghost thr = right_i - window_ms as int;
    proof {
        assert(s.take(0) =~= Seq::<TimeSpanSentDataInfo>::empty());
        assert(s.skip(0) =~= s);
    }
    let mut amount: u128 = 0;
    let mut data_amount: u128 = 0;
    let mut i: usize = 0;
    loop
        invariant
            sent_data@ == s,
            s.len() >= 2,
            right == s.last().from,
            right_i == right as int,
            thr == right_i - window_ms as int,
            0 <= i <= s.len(),
            amount == spans_total(s.take(i as int)),
            data_amount == spans_data(s.take(i as int)),
            amount <= i * (2 * MAX_SPAN_BYTES as int),
            data_amount <= amount,
            forall|k: int|
                0 <= k < s.len() ==> (#[trigger] s[k]).data_size <= MAX_SPAN_BYTES && s[
                    k
                ].filler_size <= MAX_SPAN_BYTES,
            range_prefix_len(s, right_i, thr) == i + range_prefix_len(
                s.skip(i as int),
                right_i,
                thr,
            ),
        ensures
            sent_data@ == s,
            i == range_prefix_len(s, right_i, thr),
            amount == spans_total(s.take(i as int)),
            data_amount == spans_data(s.take(i as int)),
        decreases s.len() - i,
    {
        if i == sent_data.len() {
            proof {
                assert(s.skip(i as int) =~= Seq::<TimeSpanSentDataInfo>::empty());
            }
            break;
        }
        let sp = sent_data[i];
        proof {
            assert(sp == s.skip(i as int)[0]);
        }
        let in_range = (sp.from as u128) + (window_ms as u128) >= (right as u128) && sp.from
            <= right;
        if !in_range {
            proof {
                assert(!span_in_range(s.skip(i as int)[0], right_i, thr));
            }
            break;
        }
        proof {
            assert(span_in_range(s.skip(i as int)[0], right_i, thr));
            assert(s.skip(i as int).drop_first() =~= s.skip(i + 1));
            assert(s.take(i + 1).drop_last() =~= s.take(i as int));
            assert(s.take(i + 1).last() == s[i as int]);
            assert(sp == s[i as int]);
            assert(sp.data_size <= MAX_SPAN_BYTES && sp.filler_size <= MAX_SPAN_BYTES);
            assert((amount + sp.data_size + sp.filler_size) as int <= (i + 1) * (2
                * MAX_SPAN_BYTES as int)) by (nonlinear_arith)
                requires
                    amount <= i * (2 * MAX_SPAN_BYTES as int),
                    sp.data_size <= MAX_SPAN_BYTES,
                    sp.filler_size <= MAX_SPAN_BYTES,
                    i >= 0,
            ;
            assert((i + 1) * (2 * MAX_SPAN_BYTES as int) <= 0x10000000000000000 * (2
                * MAX_SPAN_BYTES as int)) by (nonlinear_arith)
                requires
                    0 <= i + 1 <= 0x10000000000000000,
            ;
        }
        amount = amount + (sp.data_size as u128) + (sp.filler_size as u128);
        data_amount = data_amount + (sp.data_size as u128);
        i = i + 1;
    }
    if i == 0 {
        return None;
    }
    let mills = right - sent_data[0].from;
    if mills == 0 || amount == 0 {
        return None;
    }
    proof {
        lemma_spans_total_nonneg(s.take(i as int));
        let am = spans_total(s.take(i as int));
        let da = spans_data(s.take(i as int));
        assert(da * PERCENT_100 / am <= PERCENT_100) by (nonlinear_arith)
            requires
                0 < am,
                0 <= da <= am,
        ;
    }
    let q = amount / (mills as u128);
    let speed: usize = if q > usize::MAX as u128 {
        usize::MAX
    } else {
        q as usize
    };
    let data_percent: usize = ((data_amount * (PERCENT_100 as u128)) / amount) as usize;
    Some(SpeedForPeriod { speed, data_percent })
}

/// The aged prefix never swallows the newest entry.
pub proof fn lemma_aged_prefix_bounds(s: Seq<TimeSpanSentDataInfo>, thr: int)
    ensures
        0 <= aged_prefix_len(s, thr) <= s.len(),
        s.len() > 0 && s.last().from >= thr ==> aged_prefix_len(s, thr) < s.len(),
    decreases s.len(),
{
    if !(s.len() == 0 || s[0].from >= thr) {
        lemma_aged_prefix_bounds(s.drop_first(), thr);
        if s.len() > 1 {
            assert(s.drop_first().last() == s.last());
        }
    }
}

/// The history entry one usage report folds into at time `now`.
pub open spec fn report_span(hp: HotPotatoInfo, now: u64) -> TimeSpanSentDataInfo {
    TimeSpanSentDataInfo {
        from: now,
        data_size: packets_total(hp.data_packets@) as usize,
        filler_size: packets_total(hp.filler_packets@) as usize,
    }
}

/// Decides as `spec_decide` says, from the current history and the last
/// command in force.
fn decide_command(info: &Info, now: u64) -> (r: Option<SpeedCorrectorCommand>)
    requires
        info.wf(),
    ensures
        r == spec_decide(info.spans(), info.last_command(), now as int),
{
    let last = info.last_speed_command;
    let lt = match get_speed(LONG_TERM_MS, &info.sent_data) {
        None => {
            return if last.is_some() {
                Some(SpeedCorrectorCommand::SwitchOff)
            } else {
                None
            };
        },
        Some(lt) => lt,
    };
    let can_up = match last {
        None => true,
        Some(lc) => (lc.command_time as u128) + (INCREASE_SPEED_PERIOD_MS as u128) < (
        now as u128),
    };
    let can_down = match last {
        None => true,
        Some(lc) => (lc.command_time as u128) + (DECREASE_SPEED_PERIOD_MS as u128) < (
        now as u128),
    };
    if can_up && lt.data_percent > UP_TRIGGER {
        if lt.speed < SHUTDOWN_SPEED {
            // The link cannot even carry the shutdown floor: stop shaping.
            if last.is_some() {
                Some(SpeedCorrectorCommand::SwitchOff)
            } else {
                None
            }
        } else {
            let suppressed = match last {
                Some(prev) => (lt.speed as u128) < (prev.value as u128) * 93 / (
                PERCENT_100 as u128),
                None => false,
            };
            if suppressed {
                // The measured speed lags the commanded one: the link, not
                // the shaping, is the bottleneck.
                None
            } else if last.is_none() && lt.speed > ENABLE_SPEED {
                Some(SpeedCorrectorCommand::SetSpeed(ENABLE_SPEED))
            } else {
                let v = if lt.speed > usize::MAX - UP_ACCELERATION {
                    usize::MAX
                } else {
                    lt.speed + UP_ACCELERATION
                };
                Some(SpeedCorrectorCommand::SetSpeed(v))
            }
        }
    } else if can_down && lt.data_percent < DOWN_TRIGGER {
        if lt.speed < SHUTDOWN_SPEED + DOWN_ACCELERATION {
            Some(SpeedCorrectorCommand::SwitchOff)
        } else {
            Some(SpeedCorrectorCommand::SetSpeed(lt.speed - DOWN_ACCELERATION))
        }
    } else {
        None
    }
}

/// Handles one usage report for one connection: folds it into the history,
/// prunes the five-second window, decides, and records the decision.
fn step_info(info: &mut Info, hp: &HotPotatoInfo, now: u64) -> (r: Option<SpeedCorrectorCommand>)
    requires
        old(info).wf(),
        old(info).time_ok(now),
        hp.wf(),
    ensures
        final(info).wf(),
        final(info).time_ok(now),
        ({
            let s1 = old(info).spans().push(report_span(*hp, now));
            let s2 = s1.skip(aged_prefix_len(s1, now - LONG_TERM_MS));
            &&& r == spec_decide(s2, old(info).last_command(), now as int)
            &&& final(info).spans() == s2
            &&& final(info).last_command() == spec_record(
                old(info).last_command(),
                r,
                now as int,
            )
        }),
{
    append_new_data(hp, info, now);
    proof {
        assert(info.spans().last() == report_span(*hp, now));
        assert(info.spans().last().from == now);
    }
    let ghost s1 = info.spans();
    clear_old_data(info, LONG_TERM_MS);
    proof {
        let thr = now - LONG_TERM_MS;
        lemma_aged_prefix_bounds(s1, thr);
        assert(info.spans().last() == s1.last());
    }
    let command = decide_command(info, now);
    match command {
        Some(SpeedCorrectorCommand::SwitchOff) => {
            info.last_speed_command = None;
        },
        Some(SpeedCorrectorCommand::SetSpeed(speed)) => {
            info.last_speed_command = Some(SpeedSetupParam { value: speed, command_time: now });
        },
        None => {},
    }
    command
}

/// What `spec_find` yields for a key: the first entry whose key matches.
pub open spec fn spec_find(s: Seq<(String, Info)>, key: Seq<char>) -> Option<Info>
    decreases s.len(),
{
    if s.len() == 0 {
        None
    } else if s[0].0@ == key {
        Some(s[0].1)
    } else {
        spec_find(s.drop_first(), key)
    }
}

pub proof fn lemma_find_at(s: Seq<(String, Info)>, key: Seq<char>, i: int)
    requires
        0 <= i < s.len(),
        forall|j: int| 0 <= j < i ==> (#[trigger] s[j]).0@ != key,
        s[i].0@ == key,
    ensures
        spec_find(s, key) == Some(s[i].1),
    decreases i,
{
    if i > 0 {
        lemma_find_at(s.drop_first(), key, i - 1);
    }
}

pub proof fn lemma_find_absent(s: Seq<(String, Info)>, key: Seq<char>)
    requires
        forall|j: int| 0 <= j < s.len() ==> (#[trigger] s[j]).0@ != key,
    ensures
        spec_find(s, key) is None,
    decreases s.len(),
{
    if s.len() > 0 {
        lemma_find_absent(s.drop_first(), key);
    }
}

pub proof fn lemma_find_update_frame(
    s: Seq<(String, Info)>,
    i: int,
    pair: (String, Info),
    key2: Seq<char>,
)
    requires
        0 <= i < s.len(),
        s[i].0@ != key2,
        pair.0@ != key2,
    ensures
        spec_find(s.update(i, pair), key2) == spec_find(s, key2),
    decreases i,
{
    let u = s.update(i, pair);
    if i == 0 {
        assert(u.drop_first() =~= s.drop_first());
    } else {
        assert(u[0] == s[0]);
        if s[0].0@ != key2 {
            assert(u.drop_first() =~= s.drop_first().update(i - 1, pair));
            lemma_find_update_frame(s.drop_first(), i - 1, pair, key2);
        }
    }
}

pub proof fn lemma_find_push_frame(s: Seq<(String, Info)>, pair: (String, Info), key2: Seq<char>)
    requires
        pair.0@ != key2,
    ensures
        spec_find(s.push(pair), key2) == spec_find(s, key2),
    decreases s.len(),
{
    let u = s.push(pair);
    if s.len() == 0 {
        assert(u[0] == pair);
        assert(u.drop_first() =~= Seq::<(String, Info)>::empty());
        assert(spec_find(u.drop_first(), key2) is None);
        assert(spec_find(u, key2) is None);
    } else {
        assert(u[0] == s[0]);
        if s[0].0@ == key2 {
            assert(spec_find(u, key2) == Some(u[0].1));
            assert(spec_find(s, key2) == Some(s[0].1));
        } else {
            assert(u.drop_first() =~= s.drop_first().push(pair));
            lemma_find_push_frame(s.drop_first(), pair, key2);
            assert(spec_find(u, key2) == spec_find(u.drop_first(), key2));
            assert(spec_find(s, key2) == spec_find(s.drop_first(), key2));
        }
    }
}

pub proof fn lemma_find_remove_frame(s: Seq<(String, Info)>, i: int, key2: Seq<char>)
    requires
        0 <= i < s.len(),
        s[i].0@ != key2,
    ensures
        spec_find(s.remove(i), key2) == spec_find(s, key2),
    decreases i,
{
    let u = s.remove(i);
    if i == 0 {
        assert(u =~= s.drop_first());
    } else {
        assert(u[0] == s[0]);
        if s[0].0@ != key2 {
            assert(u.drop_first() =~= s.drop_first().remove(i - 1));
            lemma_find_remove_frame(s.drop_first(), i - 1, key2);
        }
    }
}

/// The adaptive controller: one rolling history per connection key.
pub struct SpeedCorrector {
    collected_info: Vec<(String, Info)>,
}

impl SpeedCorrector {
    /// The per-connection histories, in insertion order.
    pub closed spec fn entries(&self) -> Seq<(String, Info)> {
        self.collected_info@
    }

    /// Every history well-formed and every key held once.
    pub open spec fn wf(&self) -> bool {
        &&& forall|i: int| 0 <= i < self.entries().len() ==> (#[trigger] self.entries()[i]).1.wf()
        &&& forall|i: int, j: int|
            0 <= i < j < self.entries().len() ==> (#[trigger] self.entries()[i]).0@ != (
            #[trigger] self.entries()[j]).0@
    }

    /// The key's history, if the corrector holds one.
    pub open spec fn info_of(&self, key: Seq<char>) -> Option<Info> {
        spec_find(self.entries(), key)
    }

    /// `now` does not lie before the key's newest history entry.
    pub open spec fn time_ok(&self, key: Seq<char>, now: u64) -> bool {
        match self.info_of(key) {
            Some(info) => info.time_ok(now),
            None => true,
        }
    }

    /// A fresh corrector that knows no connection yet.
    pub fn new() -> (r: SpeedCorrector)
        ensures
            r.wf(),
            r.entries().len() == 0,
    {
        SpeedCorrector { collected_info: Vec::new() }
    }

    /// Handles one usage report for the given connection key, creating the
    /// key's history on first sight: the report's byte totals join the
    /// history, the five-second window is pruned, and the decision of
    /// `spec_decide` is returned and recorded. Reports must arrive in
    /// chronological order per key. Other keys' histories are untouched.
    pub fn append_and_get(&mut self, key: &String, hp: &HotPotatoInfo, now: u64) -> (r: Option<
        SpeedCorrectorCommand,
    >)
        requires
            old(self).wf(),
            old(self).time_ok(key@, now),
            hp.wf(),
        ensures
            final(self).wf(),
            ({
                let (spans0, last0) = match old(self).info_of(key@) {
                    Some(info) => (info.spans(), info.last_command()),
                    None => (Seq::<TimeSpanSentDataInfo>::empty(), None::<SpeedSetupParam>),
                };
                let s1 = spans0.push(report_span(*hp, now));
                let s2 = s1.skip(aged_prefix_len(s1, now - LONG_TERM_MS));
                &&& r == spec_decide(s2, last0, now as int)
                &&& match final(self).info_of(key@) {
                    Some(info1) => {
                        &&& info1.spans() == s2
                        &&& info1.last_command() == spec_record(last0, r, now as int)
                    },
                    None => false,
                }
            }),
            forall|k2: Seq<char>|
                k2 != key@ ==> #[trigger] final(self).info_of(k2) == old(self).info_of(k2),
    {
        let ghost entries0 = self.collected_info@;
        let n = self.collected_info.len();
        let mut idx: usize = 0;
        loop
            invariant
                self.collected_info@ == entries0,
                n == entries0.len(),
                0 <= idx <= n,
                forall|j: int| 0 <= j < idx ==> (#[trigger] entries0[j]).0@ != key@,
            ensures
                self.collected_info@ == entries0,
                0 <= idx <= entries0.len(),
                forall|j: int| 0 <= j < idx ==> (#[trigger] entries0[j]).0@ != key@,
                idx < entries0.len() ==> entries0[idx as int].0@ == key@,
            decreases n - idx,
        {
            if idx == n {
                break;
            }
            if self.collected_info[idx].0 == *key {
                break;
            }
            idx = idx + 1;
        }
        if idx == self.collected_info.len() {
            // First report for this key: start a fresh history.
            proof {
                lemma_find_absent(entries0, key@);
            }
            self.collected_info.push((key.clone(), Info::new()));
            proof {
                assert(self.collected_info@.drop_last() =~= entries0);
            }
        } else {
            proof {
                lemma_find_at(entries0, key@, idx as int);
            }
        }
        let ghost entries1 = self.collected_info@;
        let ghost pushed = idx as int == entries0.len();
        let pair_ref = &mut self.collected_info[idx];
        let r = step_info(&mut pair_ref.1, hp, now);
        proof {
            assert(self.collected_info@ =~= entries1.update(
                idx as int,
                (entries1[idx as int].0, self.collected_info@[idx as int].1),
            ));
            let info1 = self.collected_info@[idx as int].1;
            lemma_find_at(self.collected_info@, key@, idx as int);
            assert forall|k2: Seq<char>| k2 != key@ implies #[trigger] spec_find(
                self.collected_info@,
                k2,
            ) == spec_find(entries0, k2) by {
                if pushed {
                    lemma_find_update_frame(
                        entries1,
                        idx as int,
                        self.collected_info@[idx as int],
                        k2,
                    );
                    lemma_find_push_frame(entries0, entries1[idx as int], k2);
                } else {
                    lemma_find_update_frame(
                        entries1,
                        idx as int,
                        self.collected_info@[idx as int],
                        k2,
                    );
                }
            }
        }
        r
    }

    /// Forgets the key's history (a broken connection starts fresh).
    pub fn clear_info(&mut self, key: &String)
        requires
            old(self).wf(),
        ensures
            final(self).wf(),
            final(self).info_of(key@) is None,
            forall|k2: Seq<char>|
                k2 != key@ ==> #[trigger] final(self).info_of(k2) == old(self).info_of(k2),
    {
        let ghost entries0 = self.collected_info@;
        let n = self.collected_info.len();
        let mut idx: usize = 0;
        loop
            invariant
                self.collected_info@ == entries0,
                n == entries0.len(),
                0 <= idx <= n,
                forall|j: int| 0 <= j < idx ==> (#[trigger] entries0[j]).0@ != key@,
            ensures
                self.collected_info@ == entries0,
                0 <= idx <= entries0.len(),
                forall|j: int| 0 <= j < idx ==> (#[trigger] entries0[j]).0@ != key@,
                idx < entries0.len() ==> entries0[idx as int].0@ == key@,
            decreases n - idx,
        {
            if idx == n {
                break;
            }
            if self.collected_info[idx].0 == *key {
                break;
            }
            idx = idx + 1;
        }
        if idx == self.collected_info.len() {
            proof {
                lemma_find_absent(entries0, key@);
            }
            return ;
        }
        self.collected_info.remove(idx);
        proof {
            let now_entries = self.collected_info@;
            assert(now_entries =~= entries0.remove(idx as int));
            // Keys are unique, so no other entry carries this key.
            assert forall|j: int| 0 <= j < now_entries.len() implies (#[trigger] now_entries[
                j
            ]).0@ != key@ by {
                if j < idx {
                    assert(now_entries[j] == entries0[j]);
                } else {
                    assert(now_entries[j] == entries0[j + 1]);
                }
            }
            lemma_find_absent(now_entries, key@);
            assert forall|k2: Seq<char>| k2 != key@ implies #[trigger] spec_find(
                now_entries,
                k2,
            ) == spec_find(entries0, k2) by {
                lemma_find_remove_frame(entries0, idx as int, k2);
            }
        }
    }
}

/// Data share pinned inside the free-play band never draws a command: with
/// a measurable speed whose data share lies in
/// `[DOWN_TRIGGER, UP_TRIGGER]` — 80% in particular — the corrector stays
/// quiet and its recorded command is unchanged, whatever the history and
/// timing.
pub proof fn lemma_hysteresis_band_quiet(
    s: Seq<TimeSpanSentDataInfo>,
    last: Option<SpeedSetupParam>,
    now: int,
)
    requires
        spec_get_speed(LONG_TERM_MS as int, s) is Some,
        DOWN_TRIGGER <= spec_get_speed(LONG_TERM_MS as int, s)->0.data_percent <= UP_TRIGGER,
    ensures
        spec_decide(s, last, now) is None,
        spec_record(last, spec_decide(s, last, now), now) == last,
{
}

/// Increases are rate-limited: once a speed was set at time `t`, a report
/// arriving within `INCREASE_SPEED_PERIOD_MS` of `t` draws no command at
/// all — two increase-eligible reports closer than that yield one
/// `SetSpeed`, not two.
pub proof fn lemma_increase_rate_limited(
    s: Seq<TimeSpanSentDataInfo>,
    value: usize,
    t: u64,
    now: u64,
)
    requires
        spec_get_speed(LONG_TERM_MS as int, s) is Some,
        now <= t + INCREASE_SPEED_PERIOD_MS,
    ensures
        spec_decide(
            s,
            Some(SpeedSetupParam { value, command_time: t }),
            now as int,
        ) is None,
{
}

/// A saturated link is never chased upward: when the measured speed stays
/// below the shutdown floor, no `SetSpeed` is ever emitted, however high
/// the data share — and as soon as the increase timing allows while a
/// speed stands commanded, the corrector switches off instead.
pub proof fn lemma_saturated_link_shuts_down(
    s: Seq<TimeSpanSentDataInfo>,
    last: Option<SpeedSetupParam>,
    now: int,
)
    requires
        spec_get_speed(LONG_TERM_MS as int, s) is Some,
        spec_get_speed(LONG_TERM_MS as int, s)->0.data_percent >= 98,
        spec_get_speed(LONG_TERM_MS as int, s)->0.speed < SHUTDOWN_SPEED,
    ensures
        !(spec_decide(s, last, now) matches Some(SpeedCorrectorCommand::SetSpeed(_))),
        (last matches Some(lc) && lc.command_time + INCREASE_SPEED_PERIOD_MS < now) ==> spec_decide(
            s,
            last,
            now,
        ) == Some(SpeedCorrectorCommand::SwitchOff),
{
}


/// A request to change one connection's speed, as handed to a worker.
pub struct ChangeSpeedRequired {
    pub key: String,
    pub speed: usize,
}

/// The decimal digit for one value in `[0, 9]`.
pub open spec fn spec_digit_char(d: int) -> char {
    if d == 0 {
        '0'
    } else if d == 1 {
        '1'
    } else if d == 2 {
        '2'
    } else if d == 3 {
        '3'
    } else if d == 4 {
        '4'
    } else if d == 5 {
        '5'
    } else if d == 6 {
        '6'
    } else if d == 7 {
        '7'
    } else if d == 8 {
        '8'
    } else {
        '9'
    }
}

/// The decimal digits of a number, most significant first.
pub open spec fn spec_decimal(n: int) -> Seq<char>
    decreases n,
{
    if n < 10 {
        seq![spec_digit_char(n)]
    } else {
        spec_decimal(n / 10).push(spec_digit_char(n % 10))
    }
}

/// Appends one decimal digit.
fn append_digit(out: &mut String, d: u128)
    requires
        d < 10,
    ensures
        final(out)@ == old(out)@.push(spec_digit_char(d as int)),
{
    let ghost before = out@;
    if d == 0 {
        out.append("0");
        proof {
            reveal_strlit("0");
            assert(out@ =~= before.push('0'));
        }
    } else if d == 1 {
        out.append("1");
        proof {
            reveal_strlit("1");
            assert(out@ =~= before.push('1'));
        }
    } else if d == 2 {
        out.append("2");
        proof {
            reveal_strlit("2");
            assert(out@ =~= before.push('2'));
        }
    } else if d == 3 {
        out.append("3");
        proof {
            reveal_strlit("3");
            assert(out@ =~= before.push('3'));
        }
    } else if d == 4 {
        out.append("4");
        proof {
            reveal_strlit("4");
            assert(out@ =~= before.push('4'));
        }
    } else if d == 5 {
        out.append("5");
        proof {
            reveal_strlit("5");
            assert(out@ =~= before.push('5'));
        }
    } else if d == 6 {
        out.append("6");
        proof {
            reveal_strlit("6");
            assert(out@ =~= before.push('6'));
        }
    } else if d == 7 {
        out.append("7");
        proof {
            reveal_strlit("7");
            assert(out@ =~= before.push('7'));
        }
    } else if d == 8 {
        out.append("8");
        proof {
            reveal_strlit("8");
            assert(out@ =~= before.push('8'));
        }
    } else {
        out.append("9");
        proof {
            reveal_strlit("9");
            assert(out@ =~= before.push('9'));
        }
    }
}

/// Appends a number's decimal digits, most significant first.
fn append_decimal(out: &mut String, n: u128)
    ensures
        final(out)@ == old(out)@ + spec_decimal(n as int),
    decreases n,
{
    let ghost before = out@;
    if n >= 10 {
        append_decimal(out, n / 10);
        append_digit(out, n % 10);
        proof {
            assert(out@ =~= before + spec_decimal(n as int));
        }
    } else {
        append_digit(out, n);
        proof {
            assert(out@ =~= before + spec_decimal(n as int));
        }
    }
}

/// The display text for a speed in bytes per millisecond: the equivalent
/// bit rate, in megabits above `M_COND` and kilobits below.
pub open spec fn spec_native_to_regular(speed: int) -> Seq<char> {
    let bit_per_s = speed * 1000 * 8;
    if speed > M_COND {
        spec_decimal(bit_per_s / (TO_MB as int)) + seq!['M', 'B', 'i', 't']
    } else {
        spec_decimal(bit_per_s / (TO_KB as int)) + seq!['K', 'B', 'i', 't']
    }
}

/// Renders a speed in bytes per millisecond as a bit rate, "12MBit" above
/// `M_COND` and "980KBit" at or below it.
pub fn native_to_regular(speed: usize) -> (r: String)
    ensures
        r@ == spec_native_to_regular(speed as int),
{
    let bit_per_s: u128 = (speed as u128) * 1000 * 8;
    let mut out = String::new();
    if speed > M_COND {
        append_decimal(&mut out, bit_per_s / (TO_MB as u128));
        out.append("MBit");
        proof {
            reveal_strlit("MBit");
            assert("MBit"@ =~= seq!['M', 'B', 'i', 't']);
            assert(out@ =~= spec_native_to_regular(speed as int));
        }
    } else {
        append_decimal(&mut out, bit_per_s / (TO_KB as u128));
        out.append("KBit");
        proof {
            reveal_strlit("KBit");
            assert("KBit"@ =~= seq!['K', 'B', 'i', 't']);
            assert(out@ =~= spec_native_to_regular(speed as int));
        }
    }
    out
}

/// Megabits per second as bytes per millisecond.
pub fn to_native_speed(m_bit_per_s: usize) -> (r: usize)
    requires
        m_bit_per_s * 105 <= usize::MAX,
    ensures
        r == m_bit_per_s * 105,
{
    m_bit_per_s * 105
}

/// Bytes per millisecond as megabits per second.
pub fn to_regular_speed(bytes_ms: usize) -> (r: usize)
    ensures
        r == bytes_ms / 105,
{
    bytes_ms / 105
}

} // verus!
