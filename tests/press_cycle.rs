use press_button::press::{
    Action, Event, Phase, PressDetector, PressDuration, BUTTON_DEBOUNCE_DELAY, LONG_PRESS_DURATION,
};
use press_button::trace::{press_on_trace, press_sequence};

/// Builds a recorded line from (level, milliseconds) segments.
fn line(segments: &[(bool, usize)]) -> Vec<bool> {
    let mut v = Vec::new();
    for &(level, ms) in segments {
        for _ in 0..ms {
            v.push(level);
        }
    }
    v
}

#[test]
fn constants_match_configuration() {
    assert_eq!(BUTTON_DEBOUNCE_DELAY, 10);
    assert_eq!(LONG_PRESS_DURATION, 500);
}

#[test]
fn short_press_released_at_300ms() {
    // idle low, high at t=20, low again 300 ms later
    let levels = line(&[(false, 20), (true, 300), (false, 50)]);
    assert_eq!(press_on_trace(&levels, 0), Some((PressDuration::Short, 320)));
}

#[test]
fn long_press_reported_without_waiting_for_release() {
    let levels = line(&[(false, 20), (true, 2000), (false, 50)]);
    // press seen at 20, debounced at 30, timer expires 500 ms later
    assert_eq!(press_on_trace(&levels, 0), Some((PressDuration::Long, 530)));
}

#[test]
fn bounce_on_press_is_one_clean_press() {
    let bouncy = line(&[
        (false, 20),
        (true, 2),
        (false, 2),
        (true, 2),
        (false, 2),
        (true, 292),
        (false, 50),
    ]);
    let clean = line(&[(false, 20), (true, 300), (false, 50)]);
    assert_eq!(press_on_trace(&bouncy, 0), Some((PressDuration::Short, 320)));
    assert_eq!(press_on_trace(&bouncy, 0), press_on_trace(&clean, 0));
}

#[test]
fn bounce_on_long_press_still_long() {
    let bouncy = line(&[(false, 20), (true, 1), (false, 3), (true, 1), (false, 1), (true, 900)]);
    assert_eq!(press_on_trace(&bouncy, 0), Some((PressDuration::Long, 530)));
}

#[test]
fn bounce_on_release_is_absorbed() {
    // held at start; its release bounces inside the debounce window
    let levels = line(&[(true, 30), (false, 2), (true, 3), (false, 40), (true, 100), (false, 10)]);
    // released at 30, press seen at 75, debounced at 85, released at 175
    assert_eq!(press_on_trace(&levels, 0), Some((PressDuration::Short, 175)));
}

#[test]
fn held_at_start_waits_for_release_then_next_press() {
    let levels = line(&[(true, 100), (false, 50), (true, 300), (false, 50)]);
    // the first high stretch is not a press: release at 100, press at 150
    assert_eq!(press_on_trace(&levels, 0), Some((PressDuration::Short, 450)));
}

#[test]
fn held_for_whole_recording_reports_nothing() {
    let levels = line(&[(true, 2000)]);
    assert_eq!(press_on_trace(&levels, 0), None);
}

#[test]
fn empty_recording_reports_nothing() {
    assert_eq!(press_on_trace(&Vec::new(), 0), None);
    assert_eq!(press_sequence(&Vec::new()), Vec::new());
}

#[test]
fn never_pressed_reports_nothing() {
    let levels = line(&[(false, 3000)]);
    assert_eq!(press_on_trace(&levels, 0), None);
}

#[test]
fn threshold_one_below_is_short() {
    // debounced at 30; released 499 ms later
    let levels = line(&[(false, 20), (true, 509), (false, 10)]);
    assert_eq!(press_on_trace(&levels, 0), Some((PressDuration::Short, 529)));
}

#[test]
fn threshold_reached_is_long() {
    // release at exactly the timer's expiry loses to the timer
    let levels = line(&[(false, 20), (true, 510), (false, 10)]);
    assert_eq!(press_on_trace(&levels, 0), Some((PressDuration::Long, 530)));
}

#[test]
fn long_press_needs_recording_up_to_expiry() {
    let levels = line(&[(false, 20), (true, 509)]);
    assert_eq!(press_on_trace(&levels, 0), None);
    let levels = line(&[(false, 20), (true, 510)]);
    assert_eq!(press_on_trace(&levels, 0), Some((PressDuration::Long, 530)));
}

#[test]
fn release_inside_press_debounce_waits_for_a_later_edge() {
    // released 5 ms after the press: the line is already low when the race
    // starts, so only the next release ends it
    let levels = line(&[(false, 20), (true, 5), (false, 100), (true, 50), (false, 10)]);
    assert_eq!(press_on_trace(&levels, 0), Some((PressDuration::Short, 175)));
}

#[test]
fn start_offset_is_honoured() {
    let levels = line(&[(false, 20), (true, 300), (false, 50), (true, 700)]);
    assert_eq!(press_on_trace(&levels, 320), Some((PressDuration::Long, 880)));
}

#[test]
fn repeated_presses_classified_independently() {
    let levels = line(&[
        (false, 20),
        (true, 100),
        (false, 100),
        (true, 800),
        (false, 100),
        (true, 50),
        (false, 40),
    ]);
    let got = press_sequence(&levels);
    assert_eq!(
        got,
        vec![
            (PressDuration::Short, 120),
            (PressDuration::Long, 730),
            (PressDuration::Short, 1170),
        ]
    );
}

#[test]
fn detector_starts_by_waiting_for_release() {
    let d = PressDetector::new();
    assert_eq!(d.phase(), Phase::AwaitRelease);
    assert_eq!(d.next_action(), Action::WaitLow);
}

#[test]
fn detector_ignores_everything_but_low_at_start() {
    let mut d = PressDetector::new();
    for e in [Event::High, Event::Slept, Event::Released, Event::TimedOut] {
        assert_eq!(d.step(e), None);
        assert_eq!(d.phase(), Phase::AwaitRelease);
    }
    assert_eq!(d.step(Event::Low), None);
    assert_eq!(d.phase(), Phase::SettleRelease);
}

fn drive_to_race(d: &mut PressDetector) {
    assert_eq!(d.step(Event::Low), None);
    assert_eq!(d.next_action(), Action::Sleep(BUTTON_DEBOUNCE_DELAY));
    assert_eq!(d.step(Event::Slept), None);
    assert_eq!(d.next_action(), Action::WaitHigh);
    assert_eq!(d.step(Event::High), None);
    assert_eq!(d.next_action(), Action::Sleep(BUTTON_DEBOUNCE_DELAY));
    assert_eq!(d.step(Event::Slept), None);
    assert_eq!(d.next_action(), Action::RaceReleaseTimeout(LONG_PRESS_DURATION));
}

#[test]
fn detector_race_release_is_short() {
    let mut d = PressDetector::new();
    drive_to_race(&mut d);
    assert_eq!(d.step(Event::Released), Some(PressDuration::Short));
    assert_eq!(d.phase(), Phase::AwaitRelease);
    // the abandoned timer has no effect afterwards
    assert_eq!(d.step(Event::TimedOut), None);
    assert_eq!(d.phase(), Phase::AwaitRelease);
}

#[test]
fn detector_race_timeout_is_long() {
    let mut d = PressDetector::new();
    drive_to_race(&mut d);
    assert_eq!(d.step(Event::High), None);
    assert_eq!(d.phase(), Phase::Race);
    assert_eq!(d.step(Event::TimedOut), Some(PressDuration::Long));
    assert_eq!(d.step(Event::Released), None);
    assert_eq!(d.next_action(), Action::WaitLow);
}

#[test]
fn detector_runs_many_cycles() {
    let mut d = PressDetector::new();
    for i in 0..5 {
        drive_to_race(&mut d);
        let e = if i % 2 == 0 { Event::Released } else { Event::TimedOut };
        let want = if i % 2 == 0 { PressDuration::Short } else { PressDuration::Long };
        assert_eq!(d.step(e), Some(want));
    }
}

#[test]
fn press_duration_orders_short_before_long() {
    assert!(PressDuration::Short < PressDuration::Long);
    assert_ne!(PressDuration::Short, PressDuration::Long);
}
