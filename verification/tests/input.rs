use voxmap::input::{InputManager, JUST_PRESSED_WINDOW};
use voxmap::screen::GpuScreenData;

#[test]
fn keys_start_released() {
    let m = InputManager::default();
    assert!(!m.is_key_pressed(7));
    assert!(!m.is_key_just_pressed(7, 0));
}

#[test]
fn press_then_release() {
    let mut m = InputManager::default();
    m.key_event(7, true, 1_000);
    assert!(m.is_key_pressed(7));
    assert!(m.is_key_just_pressed(7, 1_000));
    assert!(m.is_key_just_pressed(7, 1_000 + JUST_PRESSED_WINDOW - 1));
    assert!(!m.is_key_just_pressed(7, 1_000 + JUST_PRESSED_WINDOW));
    // A clock reading earlier than the press counts as no time elapsed.
    assert!(m.is_key_just_pressed(7, 10));
    assert!(!m.is_key_pressed(8));
    m.key_event(7, false, 2_000);
    assert!(!m.is_key_pressed(7));
    assert!(!m.is_key_just_pressed(7, 2_000));
}

#[test]
fn other_keys_are_untouched() {
    let mut m = InputManager::default();
    m.key_event(1, true, 0);
    m.key_event(2, true, 50_000);
    m.key_event(1, false, 60_000);
    assert!(m.is_key_pressed(2));
    assert!(m.is_key_just_pressed(2, 55_000));
    assert!(!m.is_key_pressed(1));
}

#[test]
fn screen_pixel_count() {
    let s = GpuScreenData::new(150, 100);
    assert_eq!((s.width, s.heigth), (150, 100));
    assert_eq!(s.pixel_count(), 15_000);
}
