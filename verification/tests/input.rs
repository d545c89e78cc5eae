//! Checks on keys, durations and points.

use deimos_agent::protocol::{WindowPoint, MAX_INPUT_DURATION_MS};
use deimos_agent::window_input::{
    click_step, hold_step, validate_duration, validate_message_point, validate_virtual_key,
    wake_step, ClickStep, HoldStep, WakeStep,
};

#[test]
fn rejects_out_of_range_keys_durations_and_message_coordinates() {
    assert!(validate_virtual_key(0).is_err());
    assert!(validate_virtual_key(0x100).is_err());
    assert!(validate_duration(MAX_INPUT_DURATION_MS + 1, "duration").is_err());
    assert!(validate_message_point(WindowPoint { x: 32_768, y: 0 }).is_err());
    assert!(validate_message_point(WindowPoint { x: 0, y: -32_769 }).is_err());
}

#[test]
fn accepts_the_outermost_keys_durations_and_message_coordinates() {
    assert!(validate_virtual_key(1).is_ok());
    assert!(validate_virtual_key(0xff).is_ok());
    assert!(validate_duration(MAX_INPUT_DURATION_MS, "duration").is_ok());
    assert!(validate_message_point(WindowPoint { x: 32_767, y: -32_768 }).is_ok());
}

#[test]
fn a_key_is_held_until_its_deadline_or_the_end_of_the_agent() {
    assert!(matches!(hold_step(0, 120, false), HoldStep::Sleep { milliseconds: 50 }));
    assert!(matches!(hold_step(100, 120, false), HoldStep::Sleep { milliseconds: 20 }));
    assert!(matches!(hold_step(120, 120, true), HoldStep::Finished));
    assert!(matches!(hold_step(0, 120, true), HoldStep::Cancelled));
}

#[test]
fn rests_end_in_a_repetition_a_release_or_a_break() {
    assert_eq!(wake_step(50, 120, false), WakeStep::Repeat);
    assert_eq!(wake_step(120, 120, false), WakeStep::Wait);
    assert_eq!(wake_step(50, 120, true), WakeStep::Cancelled);
    assert_eq!(click_step(0, 120, false), ClickStep::Sleep { milliseconds: 50 });
    assert_eq!(click_step(120, 120, false), ClickStep::Release { cancelled: false });
    assert_eq!(click_step(120, 120, true), ClickStep::Release { cancelled: true });
    assert_eq!(click_step(7, 120, true), ClickStep::Release { cancelled: true });
}
