use equalizer::filler::Filler;
use equalizer::objects::{Packet, RuntimeCommand, ONE_PACKET_MAX_SIZE};
use equalizer::speed::SpeedCorrectorCommand;
use equalizer::throttler::ThrottlerAnalyzer;
use equalizer::worker::{apply_runtime_command, WorkerMode};

#[test]
fn new_packet_is_zero_filled() {
    let packet = Packet::new_packet(512);
    assert_eq!(packet.size, 512);
    assert_eq!(packet.buf.len(), ONE_PACKET_MAX_SIZE);
    assert!(packet.buf.iter().all(|b| *b == 0));
}

#[test]
fn set_speed_enters_shaping_mode() {
    let mut filler = Filler::new(0);
    let mut analyzer = ThrottlerAnalyzer::new(0);
    let command = RuntimeCommand::SetSpeed(SpeedCorrectorCommand::SetSpeed(500));
    let mode = apply_runtime_command(&mut filler, &mut analyzer, &command);
    assert_eq!(mode, WorkerMode::Shaping);
    // Both the filler target and the window capacity now follow 500
    // bytes/ms.
    filler.data_was_sent(1000, 1000);
    // With no window filler the 50% allowance applies: 750 * 12 - 1000.
    assert_eq!(filler.get_available_space(1012), 8000);
    assert_eq!(analyzer.get_available_space(1012), 50_000);
}

#[test]
fn switch_off_returns_to_free_mode() {
    let mut filler = Filler::new(700);
    let mut analyzer = ThrottlerAnalyzer::new(700);
    let command = RuntimeCommand::SetSpeed(SpeedCorrectorCommand::SwitchOff);
    let mode = apply_runtime_command(&mut filler, &mut analyzer, &command);
    assert_eq!(mode, WorkerMode::Free);
    // The shaping state is left as it was.
    filler.data_was_sent(700, 2000);
    // Still at 700 bytes/ms, boosted by half: 1050 * 3 - 700.
    assert_eq!(filler.get_available_space(2003), 2450);
}

#[test]
fn shaping_follows_repeated_commands() {
    let mut filler = Filler::new(0);
    let mut analyzer = ThrottlerAnalyzer::new(0);
    let on = RuntimeCommand::SetSpeed(SpeedCorrectorCommand::SetSpeed(100));
    let off = RuntimeCommand::SetSpeed(SpeedCorrectorCommand::SwitchOff);
    assert_eq!(apply_runtime_command(&mut filler, &mut analyzer, &on), WorkerMode::Shaping);
    assert_eq!(apply_runtime_command(&mut filler, &mut analyzer, &off), WorkerMode::Free);
    assert_eq!(apply_runtime_command(&mut filler, &mut analyzer, &on), WorkerMode::Shaping);
}

/// The closed control loop in miniature: with no real data, the filler
/// trickle keeps the measured data share near zero, the corrector walks
/// the target down and finally switches shaping off, the worker drops to
/// free mode — and once settled, while idle, not one more filler packet
/// goes out.
#[test]
fn idle_link_settles_and_filler_stops() {
    let key = "c1".to_string();
    let mut filler = Filler::new(100);
    let mut analyzer = ThrottlerAnalyzer::new(100);
    let mut corrector = equalizer::speed::SpeedCorrector::new();
    let mut mode = WorkerMode::Shaping;
    let mut saw_switch_off = false;
    let mut last_filler_at: u64 = 0;
    for now in 0..40_000u64 {
        // A short burst of real data, then silence.
        if now < 50 && now % 10 == 0 {
            filler.data_was_sent(500, now);
        }
        if mode == WorkerMode::Shaping {
            if let Some(packet) = filler.get_filler_packet(now) {
                filler.filler_was_sent(packet.size, now);
                last_filler_at = now;
            }
        }
        if let Some(report) = filler.clean_almost_full(now) {
            if let Some(cmd) = corrector.append_and_get(&key, &report, now) {
                if cmd == SpeedCorrectorCommand::SwitchOff {
                    saw_switch_off = true;
                }
                mode = apply_runtime_command(
                    &mut filler,
                    &mut analyzer,
                    &RuntimeCommand::SetSpeed(cmd),
                );
            }
        }
    }
    assert!(saw_switch_off);
    assert_eq!(mode, WorkerMode::Free);
    // The trickle died with the switch-off: nothing in the last ten
    // seconds of idleness.
    assert!(last_filler_at < 30_000);
    // And long after the last send the engine itself reports no space.
    assert_eq!(filler.get_available_space(60_000), 0);
}
