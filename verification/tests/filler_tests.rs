use equalizer::filler::{Filler, FILLER_PACKET_SIZE, MIN_BYTES_TO_FILL, OLD_AGE_MS};
use equalizer::objects::{MAX_STAT_COUNT, ONE_PACKET_MAX_SIZE};

const INITIAL_SPEED: usize = 1024 * 1024 / 1000;

#[test]
fn clean_test() {
    let mut filler = Filler::new(INITIAL_SPEED);
    let start: u64 = 1000;
    filler.data_was_sent(10, start);
    // A record sent more than the analysis window ago is drained.
    let now = start + OLD_AGE_MS + 1;
    let info = filler.clean(now);
    assert_eq!(1, info.data_count());

    filler.data_was_sent(10, now);
    let info = filler.clean(now);
    assert_eq!(0, info.data_count());
}

#[test]
fn clean_keeps_kinds_apart_and_ordered() {
    let mut filler = Filler::new(INITIAL_SPEED);
    filler.data_was_sent(100, 0);
    filler.filler_was_sent(200, 1);
    filler.data_was_sent(300, 2);
    let info = filler.clean(200);
    assert_eq!(info.data_count(), 2);
    assert_eq!(info.filler_count(), 1);
    assert_eq!(info.data_packets[0].sent_size, 100);
    assert_eq!(info.data_packets[1].sent_size, 300);
    assert_eq!(info.filler_packets[0].sent_size, 200);
    assert_eq!(info.data_packets[0].sent_date, 0);
}

#[test]
fn clean_caps_one_report_at_ten_per_kind() {
    let mut filler = Filler::new(INITIAL_SPEED);
    for i in 0..12u64 {
        filler.data_was_sent(10, i);
    }
    let info = filler.clean(500);
    assert_eq!(info.data_count(), MAX_STAT_COUNT);
    // The two leftover records wait for the next drain.
    let info = filler.clean(500);
    assert_eq!(info.data_count(), 2);
}

#[test]
fn clean_almost_full_triggers_early() {
    let mut filler = Filler::new(INITIAL_SPEED);
    for i in 0..8u64 {
        filler.data_was_sent(10, i);
    }
    // Eight old data records: not yet within one of the cap.
    assert!(filler.clean_almost_full(500).is_none());
    filler.data_was_sent(10, 400);
    // Nine old data records: the drain fires before any is lost.
    let info = filler.clean_almost_full(501).unwrap();
    assert_eq!(info.data_count(), 9);
}

#[test]
fn filler_conservative_below_threshold() {
    let mut filler = Filler::new(100);
    filler.data_was_sent(1000, 1000);
    filler.filler_was_sent(250, 1001);
    // The window has seen more bytes than its capacity so far: no space.
    // 100 bytes/ms * (1003 - 1000) = 300 < 1250 sent.
    assert_eq!(filler.get_available_space(1003), 0);
    assert!(filler.get_filler_packet(1003).is_none());
    // 100 bytes/ms * 13 - 1250 = 50, well under the threshold: still
    // nothing.
    assert!(filler.get_available_space(1013) <= MIN_BYTES_TO_FILL);
    assert_eq!(filler.get_available_space(1013), 50);
    assert!(filler.get_filler_packet(1013).is_none());
}

#[test]
fn filler_packet_is_one_fixed_trickle() {
    let mut filler = Filler::new(100);
    filler.data_was_sent(1000, 1000);
    filler.filler_was_sent(250, 1001);
    // 100 bytes/ms * (1031 - 1000) - 1250 = 1850 > 1024: exactly one
    // small constant packet, never one sized to the whole gap.
    let space = filler.get_available_space(1031);
    assert_eq!(space, 1850);
    let packet = filler.get_filler_packet(1031).unwrap();
    assert_eq!(packet.size, FILLER_PACKET_SIZE);
    assert!(packet.size > 0 && packet.size < space);
    assert!(packet.buf.iter().all(|b| *b == 0));
}

#[test]
fn available_space_clamps_to_one_packet() {
    let mut filler = Filler::new(1000);
    filler.data_was_sent(100, 0);
    // 1500 bytes/ms (boosted) over 99 ms would be huge; the answer stays
    // at one packet's size.
    assert_eq!(filler.get_available_space(99), ONE_PACKET_MAX_SIZE);
}

#[test]
fn available_space_boosts_when_filler_is_scarce() {
    // Window data outweighs window filler more than five to one: a 50%
    // speed-up allowance applies to the rate.
    let mut filler = Filler::new(100);
    filler.data_was_sent(600, 1000);
    filler.filler_was_sent(100, 1001);
    // data 600 > 5 * filler 100: 150 bytes/ms * 20 - 700 = 2300.
    assert_eq!(filler.get_available_space(1020), 2300);
    // One more filler record kills the ratio: 600 <= 5 * 200.
    filler.filler_was_sent(100, 1002);
    // 100 bytes/ms * 20 - 800 = 1200.
    assert_eq!(filler.get_available_space(1020), 1200);
}

#[test]
fn idle_window_no_filler() {
    // Once nothing was sent within the last window, the space is zero and
    // no filler flows: an idle channel stays idle.
    let mut filler = Filler::new(1024);
    filler.data_was_sent(500, 1000);
    assert_eq!(filler.get_available_space(1200), 0);
    assert!(filler.get_filler_packet(1200).is_none());
    // A send keeps the window alive only while it is young.
    filler.filler_was_sent(1024, 1210);
    assert!(filler.get_available_space(1250) > 0);
    assert_eq!(filler.get_available_space(1311), 0);
    assert!(filler.get_filler_packet(1311).is_none());
}

#[test]
fn no_history_no_filler() {
    let filler = Filler::new(100);
    assert_eq!(filler.get_available_space(5000), 0);
    assert!(filler.get_filler_packet(5000).is_none());
}

#[test]
fn zero_speed_no_filler() {
    let mut filler = Filler::new(0);
    filler.data_was_sent(10, 0);
    assert_eq!(filler.get_available_space(1000), 0);
    assert!(filler.get_filler_packet(1000).is_none());
}

/// Shaping scenario: at 100 bytes/ms target, a one-second burst of real
/// data that alone underfills the channel is topped up by filler so that
/// the bytes delivered within the burst plus one window land inside
/// [0.8 * S * T, 1.3 * S * T].
#[test]
fn shaping_burst_stays_in_band() {
    let speed: usize = 100;
    let burst_ms: u64 = 1000;
    let window: u64 = 100;
    let mut filler = Filler::new(speed);
    let mut delivered: usize = 0;
    for now in 0..=(burst_ms + window) {
        if now < burst_ms && now % 10 == 0 {
            filler.data_was_sent(850, now);
            delivered += 850;
        } else if let Some(packet) = filler.get_filler_packet(now) {
            filler.filler_was_sent(packet.size, now);
            delivered += packet.size;
        }
    }
    let target = speed as u64 * burst_ms;
    assert!(delivered as u64 * 10 >= target * 8);
    assert!(delivered as u64 * 10 <= target * 13);
}
