use equalizer::objects::Packet;
use equalizer::throttler::{Throttler, ThrottlerAnalyzer, ThrottlerCommand, ThrottlerResult, ANALYZE_PERIOD_MS};

#[test]
fn analyzer_test() {
    // At 1024 bytes per millisecond, 90 packets of 1024 bytes fill all but
    // 10240 bytes of the window; once the window slides past them, the
    // space opens up again.
    let mut analyzer = ThrottlerAnalyzer::new(1024);
    let mut now: u64 = 0;
    for i in 0..90 {
        analyzer.data_was_sent(1024, now);
        if i == 0 {
            now += 10;
        }
    }
    let space = analyzer.get_available_space(now);
    assert_eq!(10240, space);
    now += ANALYZE_PERIOD_MS as u64;
    let space = analyzer.get_available_space(now);
    assert!(space >= 10_000);
}

#[test]
fn window_sum_is_exact() {
    // Rate window correctness on concrete values: capacity minus the sum
    // of the records still inside the window, floored at zero.
    let mut analyzer = ThrottlerAnalyzer::new(100);  // capacity 10_000
    analyzer.data_was_sent(3000, 1000);
    analyzer.data_was_sent(4000, 1050);
    assert_eq!(analyzer.get_available_space(1060), 3000);
    // The first record leaves the window at 1100 (100 ms after 1000).
    assert_eq!(analyzer.get_available_space(1100), 6000);
    // Overfilling floors at zero.
    analyzer.data_was_sent(9000, 1101);
    assert_eq!(analyzer.get_available_space(1102), 0);
}

#[test]
fn set_speed_rescales_capacity() {
    let mut analyzer = ThrottlerAnalyzer::new(10);
    analyzer.data_was_sent(500, 0);
    assert_eq!(analyzer.get_available_space(0), 500);
    analyzer.set_speed(50);
    // History is kept; only the capacity changes.
    assert_eq!(analyzer.get_available_space(1), 4500);
}

#[test]
fn all_packets_received_test() {
    // Push more packets than one window allows; the throttler must hand
    // out every one of them, just not all at once.
    let mut throttler = Throttler::new();
    let mut queued: Vec<Packet> = Vec::new();
    for _i in 0..110 {
        queued.push(Packet::new_packet(1024));
    }
    queued.reverse();

    let mut now: u64 = 0;
    let mut received: usize = 0;
    loop {
        match throttler.get_packet(now) {
            ThrottlerResult::ThrottledPacket(_) => {
                received += 1;
            }
            ThrottlerResult::NoData => {
                if let Some(packet) = queued.pop() {
                    match throttler.enqueue(packet, now) {
                        ThrottlerResult::DirectPacket(_) => {
                            received += 1;
                        }
                        _ => break,
                    }
                } else {
                    break;
                }
            }
            _ => break,
        }
    }
    // Not everything fits in the first window.
    assert!(received < 105);
    now += 100;
    loop {
        match throttler.get_packet(now) {
            ThrottlerResult::ThrottledPacket(_) => {
                received += 1;
            }
            ThrottlerResult::NoData => {
                if let Some(packet) = queued.pop() {
                    match throttler.enqueue(packet, now) {
                        ThrottlerResult::DirectPacket(_) => {
                            received += 1;
                        }
                        _ => break,
                    }
                } else {
                    break;
                }
            }
            _ => break,
        }
    }
    match throttler.handle_command(ThrottlerCommand::Dispose, now) {
        ThrottlerResult::NoData => {}
        _ => panic!("dispose reports no data"),
    }
    assert_eq!(110, received);
}

#[test]
fn oversized_packet_waits_for_room() {
    let mut throttler = Throttler::new();
    // Fill the window completely.
    let big = Packet::new_packet(10240);
    let mut used = 0usize;
    loop {
        match throttler.enqueue(Packet::new_packet(10240), 0) {
            ThrottlerResult::DirectPacket(p) => used += p.size,
            ThrottlerResult::Throttling => break,
            _ => unreachable!(),
        }
    }
    assert!(used <= 1048 * 100);
    // The queued packet comes out once the window slides.
    match throttler.get_packet(500) {
        ThrottlerResult::ThrottledPacket(p) => assert_eq!(p.size, big.size),
        _ => panic!("expected the queued packet"),
    }
}
