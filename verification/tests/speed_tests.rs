use equalizer::objects::{HotPotatoInfo, SentPacket};
use equalizer::speed::{append_new_data, clear_old_data, Info};
use equalizer::speed::{
    get_speed, native_to_regular, to_native_speed, to_regular_speed, SpeedCorrector,
    SpeedCorrectorCommand, TimeSpanSentDataInfo, DOWN_ACCELERATION, ENABLE_SPEED,
    INCREASE_SPEED_PERIOD_MS, LONG_TERM_MS, SHUTDOWN_SPEED, UP_ACCELERATION,
};

/// A usage report carrying the given byte totals, split into records no
/// larger than one packet.
fn report(data: usize, filler: usize) -> HotPotatoInfo {
    let mut hp = HotPotatoInfo::default();
    let mut d = data;
    while d > 0 {
        let chunk = d.min(10_000);
        hp.data_packets.push(SentPacket { sent_date: 0, sent_size: chunk });
        d -= chunk;
    }
    let mut f = filler;
    while f > 0 {
        let chunk = f.min(10_000);
        hp.filler_packets.push(SentPacket { sent_date: 0, sent_size: chunk });
        f -= chunk;
    }
    hp
}

#[test]
fn get_speed_needs_two_samples() {
    let spans = vec![TimeSpanSentDataInfo { from: 0, data_size: 100, filler_size: 0 }];
    assert!(get_speed(LONG_TERM_MS, &spans).is_none());
}

#[test]
fn get_speed_measures_bytes_over_elapsed_time() {
    let spans = vec![
        TimeSpanSentDataInfo { from: 1000, data_size: 8000, filler_size: 2000 },
        TimeSpanSentDataInfo { from: 1100, data_size: 8000, filler_size: 2000 },
    ];
    let lt = get_speed(LONG_TERM_MS, &spans).unwrap();
    // 20000 bytes over 100 ms at 80% data.
    assert_eq!(lt.speed, 200);
    assert_eq!(lt.data_percent, 80);
}

#[test]
fn get_speed_ignores_entries_outside_window() {
    let spans = vec![
        TimeSpanSentDataInfo { from: 0, data_size: 50_000, filler_size: 0 },
        TimeSpanSentDataInfo { from: 20_000, data_size: 1000, filler_size: 0 },
        TimeSpanSentDataInfo { from: 20_100, data_size: 1000, filler_size: 0 },
    ];
    // The first entry lies outside [right - window, right], and the scan
    // from the front stops right there.
    assert!(get_speed(LONG_TERM_MS, &spans).is_none());
}

/// Speed Corrector hysteresis: summaries pinned at exactly 80% data never
/// draw a command.
#[test]
fn steady_eighty_percent_never_commands() {
    let key = String::from("c1");
    let mut corrector = SpeedCorrector::new();
    let mut now: u64 = 1000;
    for _ in 0..50 {
        let cmd = corrector.append_and_get(&key, &report(8000, 2000), now);
        assert_eq!(cmd, None);
        now += 100;
    }
}

/// Speed Corrector rate limiting: two increase-eligible reports closer
/// than the increase period yield one SetSpeed, not two.
#[test]
fn increases_are_rate_limited() {
    let key = String::from("c1");
    let mut corrector = SpeedCorrector::new();
    // Two 98%-data reports 100 ms apart: increase-eligible as soon as the
    // speed is measurable; 2 x 20_000 bytes over 100 ms measure 400
    // bytes/ms.
    assert_eq!(corrector.append_and_get(&key, &report(19_600, 400), 1000), None);
    let first = corrector.append_and_get(&key, &report(19_600, 400), 1100);
    assert_eq!(first, Some(SpeedCorrectorCommand::SetSpeed(400 + UP_ACCELERATION)));
    // 100 ms later: still increase-eligible, but the period has not
    // passed — no command at all.
    let second = corrector.append_and_get(&key, &report(19_600, 400), 1200);
    assert_eq!(second, None);
    assert!(INCREASE_SPEED_PERIOD_MS > 100);
}

/// Speed Corrector shutdown path: a link whose measured speed stays below
/// the shutdown floor draws SwitchOff, never an increase, however high
/// its data share.
#[test]
fn saturated_slow_link_switches_off() {
    let key = String::from("c1");
    let mut corrector = SpeedCorrector::new();
    // Healthy start: one increase puts shaping on.
    assert_eq!(corrector.append_and_get(&key, &report(19_600, 400), 1000), None);
    let on = corrector.append_and_get(&key, &report(19_600, 400), 1100);
    assert!(matches!(on, Some(SpeedCorrectorCommand::SetSpeed(_))));
    // Then the link degrades: 98% data but only ~50 bytes/ms measured,
    // well below the shutdown floor.
    let mut now: u64 = 1100;
    let mut saw_switch_off = false;
    for _ in 0..100 {
        now += 100;
        match corrector.append_and_get(&key, &report(4900, 100), now) {
            Some(SpeedCorrectorCommand::SwitchOff) => {
                saw_switch_off = true;
                break;
            }
            Some(SpeedCorrectorCommand::SetSpeed(_)) => {
                panic!("a saturated link must never be chased upward");
            }
            None => {}
        }
    }
    assert!(saw_switch_off);
}

#[test]
fn low_percent_decreases_after_long_period() {
    let key = String::from("c1");
    let mut corrector = SpeedCorrector::new();
    // Shaping on first.
    assert_eq!(corrector.append_and_get(&key, &report(19_600, 400), 1000), None);
    assert!(corrector.append_and_get(&key, &report(19_600, 400), 1100).is_some());
    // Now 50% data at a healthy 200 bytes/ms: decrease-eligible, but only
    // after the long decrease period.
    let mut now: u64 = 1100;
    let mut cmd = None;
    for _ in 0..200 {
        now += 100;
        cmd = corrector.append_and_get(&key, &report(10_000, 10_000), now);
        if cmd.is_some() {
            break;
        }
    }
    // At the first eligible tick the window holds 51 half-data entries:
    // 1_020_000 bytes over 5000 ms measure 204 bytes/ms.
    assert_eq!(cmd, Some(SpeedCorrectorCommand::SetSpeed(204 - DOWN_ACCELERATION)));
    assert_eq!(now, 11_200);
}

#[test]
fn first_increase_is_capped_at_enable_speed() {
    let key = String::from("c1");
    let mut corrector = SpeedCorrector::new();
    // 98% data measured at 20_400 bytes/ms (two 102_000-byte reports a
    // mere 10 ms apart), far above the enable floor: the first command
    // jumps to the floor, not beyond it.
    assert_eq!(corrector.append_and_get(&key, &report(100_000, 2000), 1000), None);
    let cmd = corrector.append_and_get(&key, &report(100_000, 2000), 1010);
    assert_eq!(cmd, Some(SpeedCorrectorCommand::SetSpeed(ENABLE_SPEED)));
}

#[test]
fn silence_after_command_backs_off() {
    let key = String::from("c1");
    let mut corrector = SpeedCorrector::new();
    assert_eq!(corrector.append_and_get(&key, &report(19_600, 400), 1000), None);
    assert!(corrector.append_and_get(&key, &report(19_600, 400), 1100).is_some());
    // A lone report twenty seconds later: everything older fell out of
    // the five-second window, nothing is measurable, and a speed stands
    // commanded — back off to SwitchOff.
    let cmd = corrector.append_and_get(&key, &report(100, 0), 21_100);
    assert_eq!(cmd, Some(SpeedCorrectorCommand::SwitchOff));
}

#[test]
fn cleared_connection_starts_fresh() {
    let key = String::from("c1");
    let mut corrector = SpeedCorrector::new();
    assert_eq!(corrector.append_and_get(&key, &report(19_600, 400), 1000), None);
    assert!(corrector.append_and_get(&key, &report(19_600, 400), 1100).is_some());
    corrector.clear_info(&key);
    // After the clear the key has no history: one report is not enough to
    // measure again.
    assert_eq!(corrector.append_and_get(&key, &report(19_600, 400), 1200), None);
}

#[test]
fn keys_are_independent() {
    let one = String::from("c1");
    let two = String::from("c2");
    let mut corrector = SpeedCorrector::new();
    assert_eq!(corrector.append_and_get(&one, &report(19_600, 400), 1000), None);
    // A different key starts its own history; the first key's pending
    // measurement is untouched.
    assert_eq!(corrector.append_and_get(&two, &report(10_000, 10_000), 1050), None);
    let cmd = corrector.append_and_get(&one, &report(19_600, 400), 1100);
    assert!(matches!(cmd, Some(SpeedCorrectorCommand::SetSpeed(_))));
}

#[test]
fn shutdown_floor_value() {
    assert_eq!(SHUTDOWN_SPEED, 102);
}

#[test]
fn speed_display_switches_units() {
    // 1048 bytes/ms = 8_384_000 bits/s -> 7MBit (integer division).
    assert_eq!(native_to_regular(1048), "7MBit");
    // 50 bytes/ms = 400_000 bits/s -> 390KBit.
    assert_eq!(native_to_regular(50), "390KBit");
    assert_eq!(native_to_regular(0), "0KBit");
}

#[test]
fn speed_unit_conversions() {
    assert_eq!(to_native_speed(50), 5250);
    assert_eq!(to_regular_speed(5250), 50);
}

#[test]
fn clear_data_test() {
    // With a two-second window and entries arriving every 200 ms, the
    // history grows to the window's capacity and never beyond it.
    let window: u64 = 2000;
    let mut info = Info::new();
    let mut queue_size = 0;
    for i in 0..50u64 {
        append_new_data(&HotPotatoInfo::default(), &mut info, i * 200);
        clear_old_data(&mut info, window);
        let new_size = info.span_count();
        if new_size > queue_size {
            queue_size = new_size;
        }
        assert!(new_size >= queue_size);
        assert!(queue_size <= 21);
    }
    assert_eq!(queue_size, 11);
}
