//! Keyboard state: which keys are held, and when each held key went down.
//!
//! Keys are identified by `u64` codes and times are microseconds on a
//! monotonic clock; both are chosen by the caller.
use vstd::prelude::*;
use std::collections::HashMap;

verus! {

/// How long a press counts as "just pressed", in microseconds.
pub const JUST_PRESSED_WINDOW: u64 = 10_000;

/// The keyboard state, as a mathematical value.
pub struct InputView {
    /// Last known state of each key that was ever pressed or released.
    pub pressed: Map<u64, bool>,
    /// Time at which each held key went down.
    pub times: Map<u64, u64>,
    /// How long a press counts as "just pressed".
    pub window: u64,
}

impl InputView {
    pub open spec fn is_pressed(self, key: u64) -> bool {
        self.pressed.contains_key(key) && self.pressed[key]
    }

    /// Time elapsed since `since`, as `Instant::duration_since` measures it:
    /// zero when `since` is later than `now`.
    pub open spec fn elapsed(now: u64, since: u64) -> int {
        if now >= since {
            now - since
        } else {
            0
        }
    }

    pub open spec fn is_just_pressed(self, key: u64, now: u64) -> bool {
        self.times.contains_key(key) && InputView::elapsed(now, self.times[key]) < self.window
    }

    /// The state after `key` went down (`down`) or up at time `now`.
    pub open spec fn after_event(self, key: u64, down: bool, now: u64) -> InputView {
        if down {
            InputView { pressed: self.pressed.insert(key, true), times: self.times.insert(key, now), ..self }
        } else {
            InputView { pressed: self.pressed.insert(key, false), times: self.times.remove(key), ..self }
        }
    }
}

/// Tracks the keyboard from key events.
///
/// Both maps are std `HashMap`s with the default hasher and integer keys:
/// vstd's specifications of `HashMap` hold only for key types and hashers
/// that it knows to behave as a map, and the default hasher is the one it
/// knows.
#[derive(Debug)]
pub struct InputManager {
    data: HashMap<u64, bool>,
    data_time: HashMap<u64, u64>,
    instant_tm: u64,
}

impl View for InputManager {
    type V = InputView;

    closed spec fn view(&self) -> InputView {
        InputView { pressed: self.data@, times: self.data_time@, window: self.instant_tm }
    }
}

impl Default for InputManager {
    /// No key held, and a window of `JUST_PRESSED_WINDOW`.
    fn default() -> (m: Self)
        ensures
            m@ == (InputView {
                pressed: Map::empty(),
                times: Map::empty(),
                window: JUST_PRESSED_WINDOW,
            }),
    {
        InputManager {
            data: HashMap::new(),
            data_time: HashMap::new(),
            instant_tm: JUST_PRESSED_WINDOW,
        }
    }
}

impl InputManager {
    /// Whether `key` is held.
    pub fn is_key_pressed(&self, key: u64) -> (b: bool)
        ensures
            b == self@.is_pressed(key),
    {
        match self.data.get(&key) {
            None => false,
            Some(val) => *val,
        }
    }

    /// Whether `key` is held and went down less than the window before `now`.
    pub fn is_key_just_pressed(&self, key: u64, now: u64) -> (b: bool)
        ensures
            b == self@.is_just_pressed(key, now),
    {
        match self.data_time.get(&key) {
            None => false,
            Some(val) => {
                let elapsed: u64 = if now >= *val {
                    now - *val
                } else {
                    0
                };
                elapsed < self.instant_tm
            },
        }
    }

    /// Records that `key` went down (`pressed`) or up at time `now`.
    pub fn key_event(&mut self, key: u64, pressed: bool, now: u64)
        ensures
            final(self)@ == old(self)@.after_event(key, pressed, now),
    {
        if pressed {
            self.data_time.insert(key, now);
            self.data.insert(key, true);
        } else {
            self.data_time.remove(&key);
            self.data.insert(key, false);
        }
    }
}

/// A key that just went down is held and just pressed; one that just went
/// up is neither; and no other key changes.
pub proof fn lemma_key_event(v: InputView, key: u64, other: u64, down: bool, now: u64, later: u64)
    requires
        other != key,
    ensures
        v.after_event(key, down, now).is_pressed(key) == down,
        down && v.window > 0 ==> v.after_event(key, down, now).is_just_pressed(key, now),
        !down ==> !v.after_event(key, down, now).is_just_pressed(key, later),
        v.after_event(key, down, now).is_pressed(other) == v.is_pressed(other),
        v.after_event(key, down, now).is_just_pressed(other, later) == v.is_just_pressed(
            other,
            later,
        ),
{
}

} // verus!
