//! Per-connection display statistics: compresses recent usage reports into
//! one summary line per connection (data share, filler share, speeds).

use vstd::prelude::*;
use crate::objects::{HotPotatoInfo, SentPacket, MAX_STAT_COUNT, ONE_PACKET_MAX_SIZE};
use crate::speed::{packets_total, PERCENT_100};
use crate::throttler::INITIAL_SPEED;

verus! {

/// Only records from the last `STAT_PERIOD_MS` milliseconds count toward a
/// summary.
pub const STAT_PERIOD_MS: u64 = 300;

/// One console line's worth of statistics for one connection.
#[derive(Debug)]
pub struct Summary {
    pub key: String,
    pub percent_data: usize,
    pub percent_filler: usize,
    /// The speed asked of the connection.
    pub target_speed: usize,
    /// The speed computed from what was actually sent.
    pub calculated_speed: usize,
}

impl Default for Summary {
    /// An empty summary: no key, all numbers zero.
    fn default() -> (r: Summary)
        ensures
            r.key@.len() == 0,
            r.percent_data == 0,
            r.percent_filler == 0,
            r.target_speed == 0,
            r.calculated_speed == 0,
    {
        Summary {
            key: String::new(),
            percent_data: 0,
            percent_filler: 0,
            target_speed: 0,
            calculated_speed: 0,
        }
    }
}

/// The rolling per-connection record store behind the summaries.
pub struct CurrentRollingInfo {
    pub key: String,
    pub target_speed: usize,
    pub data: Vec<SentPacket>,
    pub filler: Vec<SentPacket>,
}

impl CurrentRollingInfo {
    /// Record sizes fit one buffer each and both stores sum safely.
    pub open spec fn wf(&self) -> bool {
        &&& forall|i: int|
            0 <= i < self.data@.len() ==> (#[trigger] self.data@[i]).sent_size
                <= ONE_PACKET_MAX_SIZE
        &&& forall|i: int|
            0 <= i < self.filler@.len() ==> (#[trigger] self.filler@[i]).sent_size
                <= ONE_PACKET_MAX_SIZE
        &&& packets_total(self.data@) + packets_total(self.filler@) <= usize::MAX
    }
}

/// How many leading records of `s` are older than `STAT_PERIOD_MS` before
/// `now`.
pub open spec fn stat_stale_len(s: Seq<SentPacket>, now: int) -> int
    decreases s.len(),
{
    if s.len() == 0 || !(s[0].sent_date + STAT_PERIOD_MS < now) {
        0
    } else {
        1 + stat_stale_len(s.drop_first(), now)
    }
}

pub proof fn lemma_packets_total_drop_first(s: Seq<SentPacket>)
    requires
        s.len() > 0,
    ensures
        packets_total(s) == s[0].sent_size + packets_total(s.drop_first()),
    decreases s.len(),
{
    if s.len() == 1 {
        assert(s.drop_first() =~= Seq::<SentPacket>::empty());
        assert(s.drop_last() =~= Seq::<SentPacket>::empty());
        assert(s.last() == s[0]);
    } else {
        lemma_packets_total_drop_first(s.drop_last());
        assert(s.drop_last()[0] == s[0]);
        assert(s.drop_last().drop_first() =~= s.drop_first().drop_last());
        assert(s.drop_first().last() == s.last());
        assert(packets_total(s.drop_first()) == packets_total(s.drop_first().drop_last())
            + s.drop_first().last().sent_size);
    }
}

pub proof fn lemma_packets_total_nonneg_stat(s: Seq<SentPacket>)
    ensures
        packets_total(s) >= 0,
    decreases s.len(),
{
    if s.len() > 0 {
        lemma_packets_total_nonneg_stat(s.drop_last());
    }
}

/// A collector of per-connection usage, queried for display summaries.
pub trait StatisticCollector {
    /// The collector's own well-formedness.
    spec fn inv(&self) -> bool;

    /// What the collector asks of one report before taking it.
    spec fn ready(&self, key: &String, info: &HotPotatoInfo, now: u64) -> bool;

    /// Tells whether the collector can take this report, exactly as
    /// `ready` says: callers that cannot evaluate `ready` themselves ask
    /// here first.
    fn ready_check(&self, key: &String, info: &HotPotatoInfo, now: u64) -> (r: bool)
        requires
            self.inv(),
        ensures
            r == self.ready(key, info, now),
    ;

    /// Folds one connection's usage report in at time `now`.
    fn append_info(&mut self, key: &String, info: HotPotatoInfo, now: u64)
        requires
            old(self).inv(),
            old(self).ready(key, &info, now),
            info.wf(),
        ensures
            final(self).inv(),
    ;

    /// Forgets one connection.
    fn clear_info(&mut self, key: &String)
        requires
            old(self).inv(),
        ensures
            final(self).inv(),
    ;

    /// The current summaries, one per known connection, if any.
    fn calculate_and_get(&mut self) -> (r: Option<Vec<Summary>>)
        requires
            old(self).inv(),
        ensures
            final(self).inv(),
    ;
}

/// A collector that keeps nothing and reports nothing: for running as a
/// plain service, where no console shows statistics.
pub struct NoStatistic {
}

impl NoStatistic {
    pub fn new() -> (r: NoStatistic)
        ensures
            r.inv(),
    {
        NoStatistic {  }
    }
}

impl StatisticCollector for NoStatistic {
    open spec fn inv(&self) -> bool {
        true
    }

    open spec fn ready(&self, key: &String, info: &HotPotatoInfo, now: u64) -> bool {
        true
    }

    fn ready_check(&self, _key: &String, _info: &HotPotatoInfo, _now: u64) -> (r: bool) {
        true
    }

    fn append_info(&mut self, _key: &String, _info: HotPotatoInfo, _now: u64) {
    }

    fn clear_info(&mut self, _key: &String) {
    }

    fn calculate_and_get(&mut self) -> (r: Option<Vec<Summary>>) {
        None
    }
}

/// Compresses usage reports into one rolling window of records per
/// connection, for console display.
pub struct SimpleStatisticCollector {
    collected_info: Vec<CurrentRollingInfo>,
}

impl Default for SimpleStatisticCollector {
    /// A collector that knows no connection yet.
    fn default() -> (r: SimpleStatisticCollector)
        ensures
            r.wf(),
            r.entries().len() == 0,
    {
        SimpleStatisticCollector { collected_info: Vec::new() }
    }
}

impl SimpleStatisticCollector {
    /// The per-connection stores, in insertion order.
    pub closed spec fn entries(&self) -> Seq<CurrentRollingInfo> {
        self.collected_info@
    }

    pub open spec fn wf(&self) -> bool {
        &&& forall|i: int| 0 <= i < self.entries().len() ==> (#[trigger] self.entries()[i]).wf()
        &&& forall|i: int, j: int|
            0 <= i < j < self.entries().len() ==> (#[trigger] self.entries()[i]).key@ != (
            #[trigger] self.entries()[j]).key@
    }

    /// Where the key's store sits, if the collector holds one.
    pub open spec fn key_index(&self, key: Seq<char>) -> Option<int> {
        if exists|i: int| 0 <= i < self.entries().len() && (#[trigger] self.entries()[i]).key@
            == key {
            Some(
                choose|i: int|
                    0 <= i < self.entries().len() && (#[trigger] self.entries()[i]).key@ == key,
            )
        } else {
            None
        }
    }

    /// How many connections the collector currently tracks.
    pub fn connection_count(&self) -> (r: usize)
        ensures
            r == self.entries().len(),
    {
        self.collected_info.len()
    }

    /// How many data records the key's store holds (zero for an unknown
    /// key).
    pub fn data_record_count(&self, key: &String) -> (r: usize)
        requires
            self.wf(),
        ensures
            forall|i: int|
                0 <= i < self.entries().len() && (#[trigger] self.entries()[i]).key@ == key@
                    ==> r == self.entries()[i].data@.len(),
            (forall|i: int|
                0 <= i < self.entries().len() ==> (#[trigger] self.entries()[i]).key@ != key@)
                ==> r == 0,
    {
        let n = self.collected_info.len();
        let mut idx: usize = 0;
        loop
            invariant
                0 <= idx <= n,
                n == self.entries().len(),
                forall|j: int| 0 <= j < idx ==> (#[trigger] self.entries()[j]).key@ != key@,
            ensures
                0 <= idx <= self.entries().len(),
                forall|j: int| 0 <= j < idx ==> (#[trigger] self.entries()[j]).key@ != key@,
                idx < self.entries().len() ==> self.entries()[idx as int].key@ == key@,
            decreases n - idx,
        {
            if idx == n {
                break;
            }
            if self.collected_info[idx].key == *key {
                break;
            }
            idx = idx + 1;
        }
        if idx < self.collected_info.len() {
            self.collected_info[idx].data.len()
        } else {
            0
        }
    }

    /// How many filler records the key's store holds (zero for an unknown
    /// key).
    pub fn filler_record_count(&self, key: &String) -> (r: usize)
        requires
            self.wf(),
        ensures
            forall|i: int|
                0 <= i < self.entries().len() && (#[trigger] self.entries()[i]).key@ == key@
                    ==> r == self.entries()[i].filler@.len(),
            (forall|i: int|
                0 <= i < self.entries().len() ==> (#[trigger] self.entries()[i]).key@ != key@)
                ==> r == 0,
    {
        let n = self.collected_info.len();
        let mut idx: usize = 0;
        loop
            invariant
                0 <= idx <= n,
                n == self.entries().len(),
                forall|j: int| 0 <= j < idx ==> (#[trigger] self.entries()[j]).key@ != key@,
            ensures
                0 <= idx <= self.entries().len(),
                forall|j: int| 0 <= j < idx ==> (#[trigger] self.entries()[j]).key@ != key@,
                idx < self.entries().len() ==> self.entries()[idx as int].key@ == key@,
            decreases n - idx,
        {
            if idx == n {
                break;
            }
            if self.collected_info[idx].key == *key {
                break;
            }
            idx = idx + 1;
        }
        if idx < self.collected_info.len() {
            self.collected_info[idx].filler.len()
        } else {
            0
        }
    }

    /// Makes sure the key has a store, creating an empty one at the
    /// default target speed on first sight.
    pub fn get_or_create(&mut self, key: &String)
        requires
            old(self).wf(),
        ensures
            final(self).wf(),
            ({
                let s0 = old(self).entries();
                let s1 = final(self).entries();
                if exists|i: int| 0 <= i < s0.len() && (#[trigger] s0[i]).key@ == key@ {
                    s1 == s0
                } else {
                    &&& s1.len() == s0.len() + 1
                    &&& s1.take(s0.len() as int) == s0
                    &&& s1.last().key@ == key@
                    &&& s1.last().data@.len() == 0
                    &&& s1.last().filler@.len() == 0
                    &&& s1.last().target_speed == INITIAL_SPEED
                }
            }),
    {
        let n = self.collected_info.len();
        let mut idx: usize = 0;
        loop
            invariant
                self.collected_info@ == old(self).collected_info@,
                0 <= idx <= n,
                n == self.entries().len(),
                forall|j: int| 0 <= j < idx ==> (#[trigger] self.entries()[j]).key@ != key@,
            ensures
                self.collected_info@ == old(self).collected_info@,
                0 <= idx <= self.entries().len(),
                forall|j: int| 0 <= j < idx ==> (#[trigger] self.entries()[j]).key@ != key@,
                idx < self.entries().len() ==> self.entries()[idx as int].key@ == key@,
            decreases n - idx,
        {
            if idx == n {
                break;
            }
            if self.collected_info[idx].key == *key {
                break;
            }
            idx = idx + 1;
        }
        if idx == self.collected_info.len() {
            self.collected_info.push(
                CurrentRollingInfo {
                    key: key.clone(),
                    target_speed: INITIAL_SPEED,
                    data: Vec::new(),
                    filler: Vec::new(),
                },
            );
            proof {
                assert(self.collected_info@.take(old(self).collected_info@.len() as int) =~= old(
                    self,
                ).collected_info@);
            }
        }
    }
}


/// A prefix never sums to more than the whole store.
pub proof fn lemma_packets_total_take_le(s: Seq<SentPacket>, j: int)
    requires
        0 <= j <= s.len(),
    ensures
        packets_total(s.take(j)) <= packets_total(s),
    decreases s.len() - j,
{
    if j == s.len() {
        assert(s.take(j) =~= s);
    } else {
        lemma_packets_total_take_le(s, j + 1);
        assert(s.take(j + 1).drop_last() =~= s.take(j));
        assert(packets_total(s.take(j + 1)) == packets_total(s.take(j)) + s[j].sent_size);
    }
}

/// A store of bounded records sums to at most its length times the bound.
pub proof fn lemma_packets_total_bound(s: Seq<SentPacket>, bound: int)
    requires
        forall|i: int| 0 <= i < s.len() ==> (#[trigger] s[i]).sent_size <= bound,
    ensures
        packets_total(s) <= s.len() * bound,
    decreases s.len(),
{
    if s.len() > 0 {
        lemma_packets_total_bound(s.drop_last(), bound);
        assert(s.drop_last().len() * bound + bound == s.len() * bound) by (nonlinear_arith)
            requires
                s.len() >= 1,
                s.drop_last().len() == s.len() - 1,
        ;
    }
}

/// Sum of all record sizes in one store.
fn rolling_sum(v: &Vec<SentPacket>) -> (r: usize)
    requires
        packets_total(v@) <= usize::MAX,
    ensures
        r == packets_total(v@),
{
    let ghost s = v@;
    proof {
        assert(s.take(0) =~= Seq::<SentPacket>::empty());
    }
    let mut sum: usize = 0;
    let mut i: usize = 0;
    while i < v.len()
        invariant
            v@ == s,
            i <= s.len(),
            packets_total(s) <= usize::MAX,
            sum == packets_total(s.take(i as int)),
        decreases s.len() - i,
    {
        proof {
            lemma_packets_total_take_le(s, i + 1);
            assert(s.take(i + 1).drop_last() =~= s.take(i as int));
            assert(s.take(i + 1).last() == s[i as int]);
        }
        sum = sum + v[i].sent_size;
        i = i + 1;
    }
    proof {
        assert(s.take(s.len() as int) =~= s);
    }
    sum
}

/// Sum of all record sizes of one report part, however large, computed
/// wide enough that nothing can overflow.
fn packet_bytes_wide(v: &Vec<SentPacket>) -> (r: u128)
    ensures
        r == packets_total(v@),
{
    let ghost s = v@;
    proof {
        assert(s.take(0) =~= Seq::<SentPacket>::empty());
    }
    let mut sum: u128 = 0;
    let mut i: usize = 0;
    while i < v.len()
        invariant
            v@ == s,
            i <= s.len(),
            sum == packets_total(s.take(i as int)),
            sum <= i * (usize::MAX as int),
        decreases s.len() - i,
    {
        proof {
            assert(s.take(i + 1).drop_last() =~= s.take(i as int));
            assert(s.take(i + 1).last() == s[i as int]);
            assert((sum + s[i as int].sent_size) as int <= (i + 1) * (usize::MAX as int))
                by (nonlinear_arith)
                requires
                    sum <= i * (usize::MAX as int),
                    s[i as int].sent_size <= usize::MAX,
                    i >= 0,
            ;
            assert((i + 1) * (usize::MAX as int) <= 0x10000000000000000 * (usize::MAX as int))
                by (nonlinear_arith)
                requires
                    0 <= i + 1 <= 0x10000000000000000,
            ;
        }
        sum = sum + (v[i].sent_size as u128);
        i = i + 1;
    }
    proof {
        assert(s.take(s.len() as int) =~= s);
    }
    sum
}

/// How one report at time `now` turns the store contents `d0`/`f0` into
/// the new contents: the report's records join at the back, then records
/// older than `STAT_PERIOD_MS` leave from the front.
pub open spec fn rolled(d0: Seq<SentPacket>, report: Seq<SentPacket>, now: int) -> Seq<
    SentPacket,
> {
    let joined = d0 + report;
    joined.skip(stat_stale_len(joined, now))
}

impl SimpleStatisticCollector {
    /// What `append_info` asks of one report: the key's store must still
    /// have room to sum the report's bytes.
    pub open spec fn append_ready(&self, key: Seq<char>, info: &HotPotatoInfo) -> bool {
        forall|i: int|
            0 <= i < self.entries().len() && (#[trigger] self.entries()[i]).key@ == key
                ==> packets_total(self.entries()[i].data@) + packets_total(
                self.entries()[i].filler@,
            ) + packets_total(info.data_packets@) + packets_total(info.filler_packets@)
                <= usize::MAX
    }

    /// Folds one report into the key's store (created on first sight):
    /// the report's records join the rolling window and stale records
    /// leave it.
    pub fn append_info(&mut self, key: &String, stat: HotPotatoInfo, now: u64)
        requires
            old(self).wf(),
            old(self).append_ready(key@, &stat),
            stat.wf(),
        ensures
            final(self).wf(),
            ({
                let s0 = old(self).entries();
                let s1 = final(self).entries();
                match old(self).key_index(key@) {
                    Some(i) => {
                        &&& s1.len() == s0.len()
                        &&& forall|j: int| 0 <= j < s0.len() && j != i ==> s1[j] == s0[j]
                        &&& s1[i].key@ == key@
                        &&& s1[i].target_speed == s0[i].target_speed
                        &&& s1[i].data@ == rolled(s0[i].data@, stat.data_packets@, now as int)
                        &&& s1[i].filler@ == rolled(
                            s0[i].filler@,
                            stat.filler_packets@,
                            now as int,
                        )
                    },
                    None => {
                        &&& s1.len() == s0.len() + 1
                        &&& s1.take(s0.len() as int) == s0
                        &&& s1.last().key@ == key@
                        &&& s1.last().target_speed == INITIAL_SPEED
                        &&& s1.last().data@ == rolled(
                            Seq::<SentPacket>::empty(),
                            stat.data_packets@,
                            now as int,
                        )
                        &&& s1.last().filler@ == rolled(
                            Seq::<SentPacket>::empty(),
                            stat.filler_packets@,
                            now as int,
                        )
                    },
                }
            }),
    {
        let ghost s0 = self.collected_info@;
        let n = self.collected_info.len();
        let mut idx: usize = 0;
        loop
            invariant
                self.collected_info@ == s0,
                0 <= idx <= n,
                n == s0.len(),
                forall|j: int| 0 <= j < idx ==> (#[trigger] s0[j]).key@ != key@,
            ensures
                self.collected_info@ == s0,
                0 <= idx <= s0.len(),
                forall|j: int| 0 <= j < idx ==> (#[trigger] s0[j]).key@ != key@,
                idx < s0.len() ==> s0[idx as int].key@ == key@,
            decreases n - idx,
        {
            if idx == n {
                break;
            }
            if self.collected_info[idx].key == *key {
                break;
            }
            idx = idx + 1;
        }
        let ghost existing = idx < s0.len();
        proof {
            if existing {
                assert(old(self).key_index(key@) == Some(idx as int)) by {
                    assert(0 <= idx < s0.len() && s0[idx as int].key@ == key@);
                    let w = choose|i: int| 0 <= i < s0.len() && (#[trigger] s0[i]).key@ == key@;
                    if w != idx {
                        assert(s0[w].key@ != s0[idx as int].key@);
                    }
                }
            } else {
                assert(old(self).key_index(key@) is None) by {
                    if exists|i: int| 0 <= i < s0.len() && (#[trigger] s0[i]).key@ == key@ {
                        let w = choose|i: int|
                            0 <= i < s0.len() && (#[trigger] s0[i]).key@ == key@;
                        assert(s0[w].key@ != key@);
                    }
                }
            }
        }
        let mut entry = if idx < self.collected_info.len() {
            self.collected_info.remove(idx)
        } else {
            CurrentRollingInfo {
                key: key.clone(),
                target_speed: INITIAL_SPEED,
                data: Vec::new(),
                filler: Vec::new(),
            }
        };
        let ghost d0 = entry.data@;
        let ghost f0 = entry.filler@;
        let ghost key0 = entry.key@;
        let ghost tgt0 = entry.target_speed;
        proof {
            assert(key0 == key@);
            if !existing {
                assert(d0 =~= Seq::<SentPacket>::empty());
                assert(f0 =~= Seq::<SentPacket>::empty());
            }
        }
        proof {
            lemma_packets_total_bound(stat.data_packets@, ONE_PACKET_MAX_SIZE as int);
            lemma_packets_total_bound(stat.filler_packets@, ONE_PACKET_MAX_SIZE as int);
            lemma_packets_total_nonneg_stat(stat.data_packets@);
            lemma_packets_total_nonneg_stat(stat.filler_packets@);
            if existing {
                assert(packets_total(old(self).entries()[idx as int].data@) + packets_total(
                    old(self).entries()[idx as int].filler@,
                ) + packets_total(stat.data_packets@) + packets_total(stat.filler_packets@)
                    <= usize::MAX);
            } else {
                assert(packets_total(d0) == 0);
                assert(packets_total(f0) == 0);
            }
            assert(d0 + stat.data_packets@.take(0) =~= d0);
            assert(packets_total(stat.data_packets@.take(0)) == 0);
        }
        // The report's records join the back of the window.
        let mut i: usize = 0;
        while i < stat.data_packets.len()
            invariant
                i <= stat.data_packets@.len(),
                entry.key@ == key0,
                entry.target_speed == tgt0,
                entry.data@ == d0 + stat.data_packets@.take(i as int),
                entry.filler@ == f0,
                packets_total(entry.data@) == packets_total(d0) + packets_total(
                    stat.data_packets@.take(i as int),
                ),
                packets_total(d0) + packets_total(f0) + packets_total(stat.data_packets@)
                    + packets_total(stat.filler_packets@) <= usize::MAX,
                forall|k: int|
                    0 <= k < entry.data@.len() ==> (#[trigger] entry.data@[k]).sent_size
                        <= ONE_PACKET_MAX_SIZE,
                forall|k: int|
                    0 <= k < stat.data_packets@.len()
                        ==> (#[trigger] stat.data_packets@[k]).sent_size <= ONE_PACKET_MAX_SIZE,
            decreases stat.data_packets@.len() - i,
        {
            proof {
                lemma_packets_total_take_le(stat.data_packets@, i + 1);
                assert(stat.data_packets@.take(i + 1).drop_last() =~= stat.data_packets@.take(
                    i as int,
                ));
                assert((d0 + stat.data_packets@.take(i + 1)).drop_last() =~= d0
                    + stat.data_packets@.take(i as int));
            }
            entry.data.push(stat.data_packets[i]);
            proof {
                assert(entry.data@ =~= d0 + stat.data_packets@.take(i + 1));
            }
            i = i + 1;
        }
        proof {
            assert(stat.data_packets@.take(stat.data_packets@.len() as int) =~= stat
                .data_packets@);
            assert(f0 + stat.filler_packets@.take(0) =~= f0);
            assert(packets_total(stat.filler_packets@.take(0)) == 0);
        }
        let mut i2: usize = 0;
        while i2 < stat.filler_packets.len()
            invariant
                i2 <= stat.filler_packets@.len(),
                entry.key@ == key0,
                entry.target_speed == tgt0,
                entry.data@ == d0 + stat.data_packets@,
                entry.filler@ == f0 + stat.filler_packets@.take(i2 as int),
                packets_total(entry.data@) == packets_total(d0) + packets_total(
                    stat.data_packets@,
                ),
                packets_total(entry.filler@) == packets_total(f0) + packets_total(
                    stat.filler_packets@.take(i2 as int),
                ),
                packets_total(d0) + packets_total(f0) + packets_total(stat.data_packets@)
                    + packets_total(stat.filler_packets@) <= usize::MAX,
                forall|k: int|
                    0 <= k < entry.data@.len() ==> (#[trigger] entry.data@[k]).sent_size
                        <= ONE_PACKET_MAX_SIZE,
                forall|k: int|
                    0 <= k < entry.filler@.len() ==> (#[trigger] entry.filler@[k]).sent_size
                        <= ONE_PACKET_MAX_SIZE,
                forall|k: int|
                    0 <= k < stat.filler_packets@.len()
                        ==> (#[trigger] stat.filler_packets@[k]).sent_size <= ONE_PACKET_MAX_SIZE,
            decreases stat.filler_packets@.len() - i2,
        {
            proof {
                lemma_packets_total_take_le(stat.filler_packets@, i2 + 1);
                assert(stat.filler_packets@.take(i2 + 1).drop_last() =~= stat.filler_packets@.take(
                    i2 as int,
                ));
                assert((f0 + stat.filler_packets@.take(i2 + 1)).drop_last() =~= f0
                    + stat.filler_packets@.take(i2 as int));
            }
            entry.filler.push(stat.filler_packets[i2]);
            proof {
                assert(entry.filler@ =~= f0 + stat.filler_packets@.take(i2 + 1));
            }
            i2 = i2 + 1;
        }
        proof {
            assert(stat.data_packets@.take(stat.data_packets@.len() as int) =~= stat
                .data_packets@);
            assert(stat.filler_packets@.take(stat.filler_packets@.len() as int) =~= stat
                .filler_packets@);
        }
        // Stale records leave the front of the window.
        let ghost dj = entry.data@;
        let ghost fj = entry.filler@;
        let ghost mut pruned: int = 0;
        loop
            invariant
                0 <= pruned <= dj.len(),
                entry.key@ == key0,
                entry.target_speed == tgt0,
                entry.data@ == dj.skip(pruned),
                entry.filler@ == fj,
                packets_total(entry.data@) <= packets_total(dj),
                forall|k: int|
                    0 <= k < entry.data@.len() ==> (#[trigger] entry.data@[k]).sent_size
                        <= ONE_PACKET_MAX_SIZE,
                stat_stale_len(dj, now as int) == pruned + stat_stale_len(entry.data@, now as int),
            ensures
                entry.key@ == key0,
                entry.target_speed == tgt0,
                entry.data@ == dj.skip(stat_stale_len(dj, now as int)),
                entry.filler@ == fj,
                packets_total(entry.data@) <= packets_total(dj),
                forall|k: int|
                    0 <= k < entry.data@.len() ==> (#[trigger] entry.data@[k]).sent_size
                        <= ONE_PACKET_MAX_SIZE,
            decreases entry.data@.len(),
        {
            if entry.data.len() == 0 {
                break;
            }
            let first = entry.data[0];
            if (first.sent_date as u128) + (STAT_PERIOD_MS as u128) < (now as u128) {
                let ghost pre = entry.data@;
                proof {
                    lemma_packets_total_drop_first(pre);
                }
                entry.data.remove(0);
                proof {
                    pruned = pruned + 1;
                    assert(entry.data@ =~= dj.skip(pruned));
                    assert(pre.drop_first() =~= entry.data@);
                }
            } else {
                break;
            }
        }
        let ghost mut pruned2: int = 0;
        loop
            invariant
                0 <= pruned2 <= fj.len(),
                entry.key@ == key0,
                entry.target_speed == tgt0,
                entry.filler@ == fj.skip(pruned2),
                entry.data@ == dj.skip(stat_stale_len(dj, now as int)),
                packets_total(entry.data@) <= packets_total(dj),
                packets_total(entry.filler@) <= packets_total(fj),
                forall|k: int|
                    0 <= k < entry.data@.len() ==> (#[trigger] entry.data@[k]).sent_size
                        <= ONE_PACKET_MAX_SIZE,
                forall|k: int|
                    0 <= k < entry.filler@.len() ==> (#[trigger] entry.filler@[k]).sent_size
                        <= ONE_PACKET_MAX_SIZE,
                stat_stale_len(fj, now as int) == pruned2 + stat_stale_len(
                    entry.filler@,
                    now as int,
                ),
            ensures
                entry.key@ == key0,
                entry.target_speed == tgt0,
                entry.filler@ == fj.skip(stat_stale_len(fj, now as int)),
                entry.data@ == dj.skip(stat_stale_len(dj, now as int)),
                packets_total(entry.data@) <= packets_total(dj),
                packets_total(entry.filler@) <= packets_total(fj),
                forall|k: int|
                    0 <= k < entry.data@.len() ==> (#[trigger] entry.data@[k]).sent_size
                        <= ONE_PACKET_MAX_SIZE,
                forall|k: int|
                    0 <= k < entry.filler@.len() ==> (#[trigger] entry.filler@[k]).sent_size
                        <= ONE_PACKET_MAX_SIZE,
            decreases entry.filler@.len(),
        {
            if entry.filler.len() == 0 {
                break;
            }
            let first = entry.filler[0];
            if (first.sent_date as u128) + (STAT_PERIOD_MS as u128) < (now as u128) {
                let ghost pre = entry.filler@;
                proof {
                    lemma_packets_total_drop_first(pre);
                }
                entry.filler.remove(0);
                proof {
                    pruned2 = pruned2 + 1;
                    assert(entry.filler@ =~= fj.skip(pruned2));
                    assert(pre.drop_first() =~= entry.filler@);
                }
            } else {
                break;
            }
        }
        proof {
            lemma_packets_total_nonneg_stat(entry.data@);
            lemma_packets_total_nonneg_stat(entry.filler@);
            assert(entry.wf());
        }
        let ghost e1 = entry;
        if idx == n {
            self.collected_info.push(entry);
            proof {
                assert(self.collected_info@.take(s0.len() as int) =~= s0);
                assert(self.collected_info@.last() == e1);
            }
        } else {
            self.collected_info.insert(idx, entry);
            proof {
                assert(self.collected_info@ =~= s0.update(idx as int, e1));
            }
        }
    }

    /// Forgets one connection's store.
    pub fn clear_info(&mut self, key: &String)
        requires
            old(self).wf(),
        ensures
            final(self).wf(),
            ({
                let s0 = old(self).entries();
                match old(self).key_index(key@) {
                    Some(i) => final(self).entries() == s0.remove(i),
                    None => final(self).entries() == s0,
                }
            }),
    {
        let ghost s0 = self.collected_info@;
        let n = self.collected_info.len();
        let mut idx: usize = 0;
        loop
            invariant
                self.collected_info@ == s0,
                0 <= idx <= n,
                n == s0.len(),
                forall|j: int| 0 <= j < idx ==> (#[trigger] s0[j]).key@ != key@,
            ensures
                self.collected_info@ == s0,
                0 <= idx <= s0.len(),
                forall|j: int| 0 <= j < idx ==> (#[trigger] s0[j]).key@ != key@,
                idx < s0.len() ==> s0[idx as int].key@ == key@,
            decreases n - idx,
        {
            if idx == n {
                break;
            }
            if self.collected_info[idx].key == *key {
                break;
            }
            idx = idx + 1;
        }
        if idx == self.collected_info.len() {
            proof {
                assert(old(self).key_index(key@) is None) by {
                    if exists|i: int| 0 <= i < s0.len() && (#[trigger] s0[i]).key@ == key@ {
                        let w = choose|i: int|
                            0 <= i < s0.len() && (#[trigger] s0[i]).key@ == key@;
                        assert(s0[w].key@ != key@);
                    }
                }
            }
            return ;
        }
        proof {
            assert(old(self).key_index(key@) == Some(idx as int)) by {
                let entries = old(self).entries();
                assert(0 <= idx < entries.len() && entries[idx as int].key@ == key@);
                let ki = old(self).key_index(key@);
                assert(ki is Some);
                let w = ki->0;
                assert(0 <= w < entries.len() && entries[w].key@ == key@);
                if w < idx {
                    assert(entries[w].key@ != entries[idx as int].key@);
                } else if idx < w {
                    assert(entries[idx as int].key@ != entries[w].key@);
                }
            }
        }
        self.collected_info.remove(idx);
    }

    /// One summary per known connection: the data and filler shares over
    /// the rolling window, the target speed, and the speed computed as
    /// bytes over the window length; a window with no bytes reports
    /// zeros. Nothing is reported while no connection is known.
    pub fn calculate_and_get(&mut self) -> (r: Option<Vec<Summary>>)
        requires
            old(self).wf(),
        ensures
            final(self).wf(),
            final(self).entries() == old(self).entries(),
            ({
                let s0 = old(self).entries();
                match r {
                    Some(v) => {
                        &&& s0.len() > 0
                        &&& v@.len() == s0.len()
                        &&& forall|i: int|
                            0 <= i < s0.len() ==> {
                                let d = packets_total((#[trigger] s0[i]).data@);
                                let f = packets_total(s0[i].filler@);
                                let t = d + f;
                                &&& v@[i].key@ == s0[i].key@
                                &&& v@[i].target_speed == s0[i].target_speed
                                &&& (t > 0 ==> v@[i].percent_data == d * PERCENT_100 / t
                                    && v@[i].percent_filler == f * PERCENT_100 / t && v@[
                                    i
                                ].calculated_speed == t / (STAT_PERIOD_MS as int))
                                &&& (t == 0 ==> v@[i].percent_data == 0 && v@[i].percent_filler
                                    == 0 && v@[i].calculated_speed == 0)
                            }
                    },
                    None => s0.len() == 0,
                }
            }),
    {
        if self.collected_info.len() == 0 {
            return None;
        }
        let ghost s0 = self.collected_info@;
        let mut result: Vec<Summary> = Vec::new();
        let mut i: usize = 0;
        while i < self.collected_info.len()
            invariant
                self.wf(),
                self.collected_info@ == s0,
                i <= s0.len(),
                result@.len() == i,
                forall|j: int|
                    0 <= j < i ==> {
                        let d = packets_total((#[trigger] s0[j]).data@);
                        let f = packets_total(s0[j].filler@);
                        let t = d + f;
                        &&& result@[j].key@ == s0[j].key@
                        &&& result@[j].target_speed == s0[j].target_speed
                        &&& (t > 0 ==> result@[j].percent_data == d * PERCENT_100 / t
                            && result@[j].percent_filler == f * PERCENT_100 / t && result@[
                            j
                        ].calculated_speed == t / (STAT_PERIOD_MS as int))
                        &&& (t == 0 ==> result@[j].percent_data == 0 && result@[j].percent_filler
                            == 0 && result@[j].calculated_speed == 0)
                    },
            decreases s0.len() - i,
        {
            proof {
                assert(self.entries()[i as int].wf());
                lemma_packets_total_nonneg_stat(s0[i as int].data@);
                lemma_packets_total_nonneg_stat(s0[i as int].filler@);
            }
            let data_bytes = rolling_sum(&self.collected_info[i].data);
            let filler_bytes = rolling_sum(&self.collected_info[i].filler);
            let total_size = data_bytes + filler_bytes;
            let summary = if total_size > 0 {
                let percent_data = (((data_bytes as u128) * (PERCENT_100 as u128)) / (
                total_size as u128)) as usize;
                let percent_filler = (((filler_bytes as u128) * (PERCENT_100 as u128)) / (
                total_size as u128)) as usize;
                proof {
                    let d = data_bytes as int;
                    let f = filler_bytes as int;
                    let t = total_size as int;
                    assert(d * PERCENT_100 / t <= PERCENT_100) by (nonlinear_arith)
                        requires
                            0 < t,
                            0 <= d <= t,
                    ;
                    assert(f * PERCENT_100 / t <= PERCENT_100) by (nonlinear_arith)
                        requires
                            0 < t,
                            0 <= f <= t,
                    ;
                }
                let calculated_speed = total_size / (STAT_PERIOD_MS as usize);
                Summary {
                    key: self.collected_info[i].key.clone(),
                    target_speed: self.collected_info[i].target_speed,
                    percent_data,
                    percent_filler,
                    calculated_speed,
                }
            } else {
                // Report zeros rather than omitting the line, so a silent
                // connection does not look like an error.
                Summary {
                    key: self.collected_info[i].key.clone(),
                    target_speed: self.collected_info[i].target_speed,
                    percent_data: 0,
                    percent_filler: 0,
                    calculated_speed: 0,
                }
            };
            result.push(summary);
            i = i + 1;
        }
        Some(result)
    }
}

impl StatisticCollector for SimpleStatisticCollector {
    open spec fn inv(&self) -> bool {
        self.wf()
    }

    open spec fn ready(&self, key: &String, info: &HotPotatoInfo, now: u64) -> bool {
        self.append_ready(key@, info)
    }

    fn ready_check(&self, key: &String, info: &HotPotatoInfo, now: u64) -> (r: bool) {
        let ghost s0 = self.collected_info@;
        let n = self.collected_info.len();
        let mut idx: usize = 0;
        loop
            invariant
                self.collected_info@ == s0,
                0 <= idx <= n,
                n == s0.len(),
                forall|j: int| 0 <= j < idx ==> (#[trigger] s0[j]).key@ != key@,
            ensures
                self.collected_info@ == s0,
                0 <= idx <= s0.len(),
                forall|j: int| 0 <= j < idx ==> (#[trigger] s0[j]).key@ != key@,
                idx < s0.len() ==> s0[idx as int].key@ == key@,
            decreases n - idx,
        {
            if idx == n {
                break;
            }
            if self.collected_info[idx].key == *key {
                break;
            }
            idx = idx + 1;
        }
        if idx == n {
            // No store for this key yet: nothing can overflow.
            return true;
        }
        proof {
            assert(self.entries()[idx as int].wf());
            lemma_packets_total_nonneg_stat(s0[idx as int].data@);
            lemma_packets_total_nonneg_stat(s0[idx as int].filler@);
            lemma_packets_total_nonneg_stat(info.data_packets@);
            lemma_packets_total_nonneg_stat(info.filler_packets@);
        }
        let report_data = packet_bytes_wide(&info.data_packets);
        let report_filler = packet_bytes_wide(&info.filler_packets);
        let entry_data = rolling_sum(&self.collected_info[idx].data) as u128;
        let entry_filler = rolling_sum(&self.collected_info[idx].filler) as u128;
        let ceiling = usize::MAX as u128;
        let fits = report_data <= ceiling && report_filler <= ceiling && entry_data + entry_filler
            + report_data + report_filler <= ceiling;
        proof {
            // The found store is the only one with this key, so the bound
            // on it settles `ready` for every matching store.
            let cond = packets_total(s0[idx as int].data@) + packets_total(
                s0[idx as int].filler@,
            ) + packets_total(info.data_packets@) + packets_total(info.filler_packets@)
                <= usize::MAX;
            assert(fits == cond);
            if cond {
                assert forall|i: int|
                    0 <= i < s0.len() && (#[trigger] s0[i]).key@ == key@ implies packets_total(
                    s0[i].data@,
                ) + packets_total(s0[i].filler@) + packets_total(info.data_packets@)
                    + packets_total(info.filler_packets@) <= usize::MAX by {
                    if i < idx {
                        assert(s0[i].key@ != s0[idx as int].key@);
                    } else if idx < i {
                        assert(s0[idx as int].key@ != s0[i].key@);
                    }
                }
            } else {
                assert(0 <= idx < s0.len() && s0[idx as int].key@ == key@);
            }
        }
        fits
    }

    fn append_info(&mut self, key: &String, info: HotPotatoInfo, now: u64) {
        SimpleStatisticCollector::append_info(self, key, info, now);
    }

    fn clear_info(&mut self, key: &String) {
        SimpleStatisticCollector::clear_info(self, key);
    }

    fn calculate_and_get(&mut self) -> (r: Option<Vec<Summary>>) {
        SimpleStatisticCollector::calculate_and_get(self)
    }
}

} // verus!
