use equalizer::objects::{HotPotatoInfo, SentPacket};
use equalizer::statistic::{
    NoStatistic, SimpleStatisticCollector, StatisticCollector, Summary, STAT_PERIOD_MS,
};

const INITIAL_SPEED: usize = 1024 * 1024 / 1000;

#[test]
fn simple_statistic_collector_memory_leak() {
    // The internal windows stay bounded even if nobody consumes the data.
    let mut stat = SimpleStatisticCollector::default();
    let key = "1".to_string();
    let now: u64 = 100_000;
    let mut old_time = now - 2 * STAT_PERIOD_MS;

    // Ten stale records and ten that count toward the summary.
    let increment = STAT_PERIOD_MS / 10;
    for _i in 0..20 {
        let mut collected_info = HotPotatoInfo::default();
        collected_info.target_speed = INITIAL_SPEED;
        collected_info.data_packets.push(SentPacket { sent_date: old_time, sent_size: 10_000 });
        collected_info.filler_packets.push(SentPacket { sent_date: old_time, sent_size: 5_000 });
        stat.append_info(&key, collected_info, now);
        old_time += increment;
    }

    assert!(stat.data_record_count(&key) <= 10);
    assert!(stat.filler_record_count(&key) <= 10);

    let client_info = stat.calculate_and_get().unwrap();
    assert_eq!(1, client_info.len());
    let summary = client_info.get(0).unwrap();
    assert_eq!(66, summary.percent_data);
    assert_eq!(33, summary.percent_filler);
}

#[test]
fn one_packet_statistic() {
    // A single packet is enough for a summary.
    let mut stat = SimpleStatisticCollector::default();
    let key = "1".to_string();
    let now: u64 = 100_000;
    let old_time = now - STAT_PERIOD_MS / 2;

    let mut collected_info = HotPotatoInfo::default();
    collected_info.target_speed = INITIAL_SPEED;
    collected_info.data_packets.push(SentPacket { sent_date: old_time, sent_size: 10_000 });
    stat.append_info(&key, collected_info, now);

    let client_info = stat.calculate_and_get().unwrap();

    let summary = client_info.get(0).unwrap();
    assert_eq!(100, summary.percent_data);
}

#[test]
fn simple_stat_duplicate() {
    let mut stat = SimpleStatisticCollector::default();
    let key = "1".to_string();
    stat.get_or_create(&key);
    let key2 = "1".to_string();
    stat.get_or_create(&key2);
    assert_eq!(1, stat.connection_count());
}

#[test]
fn summary_numbers_are_exact() {
    let mut stat = SimpleStatisticCollector::default();
    let key = "peer".to_string();
    let now: u64 = 10_000;
    let mut info = HotPotatoInfo::default();
    info.data_packets.push(SentPacket { sent_date: now - 100, sent_size: 6000 });
    info.filler_packets.push(SentPacket { sent_date: now - 100, sent_size: 3000 });
    stat.append_info(&key, info, now);
    let summaries = stat.calculate_and_get().unwrap();
    assert_eq!(summaries.len(), 1);
    let summary = &summaries[0];
    assert_eq!(summary.key, "peer");
    assert_eq!(summary.percent_data, 66);
    assert_eq!(summary.percent_filler, 33);
    // 9000 bytes over the 300 ms window.
    assert_eq!(summary.calculated_speed, 30);
    assert_eq!(summary.target_speed, INITIAL_SPEED);
}

#[test]
fn empty_window_reports_zeros() {
    let mut stat = SimpleStatisticCollector::default();
    let key = "quiet".to_string();
    stat.get_or_create(&key);
    let summaries = stat.calculate_and_get().unwrap();
    assert_eq!(summaries.len(), 1);
    assert_eq!(summaries[0].percent_data, 0);
    assert_eq!(summaries[0].percent_filler, 0);
    assert_eq!(summaries[0].calculated_speed, 0);
}

#[test]
fn cleared_key_disappears() {
    let mut stat = SimpleStatisticCollector::default();
    let one = "1".to_string();
    let two = "2".to_string();
    stat.get_or_create(&one);
    stat.get_or_create(&two);
    assert_eq!(2, stat.connection_count());
    stat.clear_info(&one);
    assert_eq!(1, stat.connection_count());
    // Unknown keys are ignored.
    stat.clear_info(&one);
    assert_eq!(1, stat.connection_count());
}

#[test]
fn small_reports_are_always_welcome() {
    let mut stat = SimpleStatisticCollector::default();
    let key = "1".to_string();
    let mut info = HotPotatoInfo::default();
    info.data_packets.push(SentPacket { sent_date: 900, sent_size: 1000 });
    assert!(stat.ready_check(&key, &info, 1000));
    stat.append_info(&key, info, 1000);
    let again = HotPotatoInfo::default();
    assert!(stat.ready_check(&key, &again, 1100));
}

#[test]
fn no_statistic_reports_nothing() {
    let mut stat = NoStatistic::new();
    let key = "1".to_string();
    stat.append_info(&key, HotPotatoInfo::default(), 0);
    assert!(stat.calculate_and_get().is_none());
}

#[test]
fn default_summary_is_empty() {
    let summary = Summary::default();
    assert_eq!(summary.key, "");
    assert_eq!(summary.percent_data, 0);
    assert_eq!(summary.calculated_speed, 0);
}
