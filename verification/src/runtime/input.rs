//! Input state: which keys and mouse buttons are held now and were held in the
//! previous frame. Keys and buttons are identified by integer codes.

use crate::util::fx_set::{fx_set_contents, FxSet};
use vstd::prelude::*;

verus! {

/// Held keys and mouse buttons, this frame and the last.
pub struct Input {
    keys_held: FxSet,
    keys_held_last_frame: FxSet,
    mouse_buttons_held: FxSet,
    mouse_buttons_held_last_frame: FxSet,
}

impl Input {
    /// Keys held now.
    pub closed spec fn keys(&self) -> Set<u64> {
        fx_set_contents(self.keys_held)
    }

    /// Keys held at the end of the previous frame.
    pub closed spec fn keys_last_frame(&self) -> Set<u64> {
        fx_set_contents(self.keys_held_last_frame)
    }

    /// Mouse buttons held now.
    pub closed spec fn buttons(&self) -> Set<u64> {
        fx_set_contents(self.mouse_buttons_held)
    }

    /// Mouse buttons held at the end of the previous frame.
    pub closed spec fn buttons_last_frame(&self) -> Set<u64> {
        fx_set_contents(self.mouse_buttons_held_last_frame)
    }

    /// Nothing held.
    pub fn new() -> (r: Self)
        ensures
            r.keys() == Set::<u64>::empty(),
            r.keys_last_frame() == Set::<u64>::empty(),
            r.buttons() == Set::<u64>::empty(),
            r.buttons_last_frame() == Set::<u64>::empty(),
    {
        Self {
            keys_held: FxSet::new(),
            keys_held_last_frame: FxSet::new(),
            mouse_buttons_held: FxSet::new(),
            mouse_buttons_held_last_frame: FxSet::new(),
        }
    }

    /// Called at the end of each frame
    pub fn reset(&mut self)
        ensures
            final(self).keys() == old(self).keys(),
            final(self).buttons() == old(self).buttons(),
            final(self).keys_last_frame() == old(self).keys(),
            final(self).buttons_last_frame() == old(self).buttons(),
    {
        self.keys_held_last_frame = self.keys_held.duplicate();
        self.mouse_buttons_held_last_frame = self.mouse_buttons_held.duplicate();
    }

    /// A key was pressed (`pressed`) or released
    pub fn handle_key(&mut self, key_code: u64, pressed: bool)
        ensures
            final(self).keys() == if pressed {
                old(self).keys().insert(key_code)
            } else {
                old(self).keys().remove(key_code)
            },
            final(self).keys_last_frame() == old(self).keys_last_frame(),
            final(self).buttons() == old(self).buttons(),
            final(self).buttons_last_frame() == old(self).buttons_last_frame(),
    {
        if pressed {
            self.keys_held.insert(key_code);
        } else {
            self.keys_held.remove(key_code);
        }
    }

    /// A mouse button was pressed (`pressed`) or released
    pub fn handle_mouse_button(&mut self, button: u64, pressed: bool)
        ensures
            final(self).buttons() == if pressed {
                old(self).buttons().insert(button)
            } else {
                old(self).buttons().remove(button)
            },
            final(self).keys() == old(self).keys(),
            final(self).keys_last_frame() == old(self).keys_last_frame(),
            final(self).buttons_last_frame() == old(self).buttons_last_frame(),
    {
        if pressed {
            self.mouse_buttons_held.insert(button);
        } else {
            self.mouse_buttons_held.remove(button);
        }
    }

    /// The key is held
    pub fn is_key_down(&self, key_code: u64) -> (r: bool)
        ensures
            r == self.keys().contains(key_code),
    {
        self.keys_held.contains(key_code)
    }

    /// The key is held now but was not in the previous frame
    pub fn is_key_just_pressed(&self, key_code: u64) -> (r: bool)
        ensures
            r == (self.keys().contains(key_code) && !self.keys_last_frame().contains(key_code)),
    {
        self.keys_held.contains(key_code) && !self.keys_held_last_frame.contains(key_code)
    }

    /// The key was held in the previous frame but is not now
    pub fn is_key_just_released(&self, key_code: u64) -> (r: bool)
        ensures
            r == (self.keys_last_frame().contains(key_code) && !self.keys().contains(key_code)),
    {
        self.keys_held_last_frame.contains(key_code) && !self.keys_held.contains(key_code)
    }

    /// The mouse button is held
    pub fn is_mouse_button_down(&self, button: u64) -> (r: bool)
        ensures
            r == self.buttons().contains(button),
    {
        self.mouse_buttons_held.contains(button)
    }

    /// The mouse button is held now but was not in the previous frame
    pub fn is_mouse_button_just_pressed(&self, button: u64) -> (r: bool)
        ensures
            r == (self.buttons().contains(button) && !self.buttons_last_frame().contains(button)),
    {
        self.mouse_buttons_held.contains(button) && !self.mouse_buttons_held_last_frame.contains(
            button,
        )
    }

    /// The mouse button was held in the previous frame but is not now
    pub fn is_mouse_button_just_released(&self, button: u64) -> (r: bool)
        ensures
            r == (self.buttons_last_frame().contains(button) && !self.buttons().contains(button)),
    {
        self.mouse_buttons_held_last_frame.contains(button) && !self.mouse_buttons_held.contains(
            button,
        )
    }
}

/// A key pressed during a frame reads as just pressed until the end of the frame, and
/// no longer once the frame is reset.
pub proof fn lemma_press_then_reset(before: Input, pressed: Input, reset: Input, key: u64)
    requires
        !before.keys().contains(key),
        before.keys_last_frame() == before.keys(),
        pressed.keys() == before.keys().insert(key),
        pressed.keys_last_frame() == before.keys_last_frame(),
        reset.keys() == pressed.keys(),
        reset.keys_last_frame() == pressed.keys(),
    ensures
        pressed.keys().contains(key) && !pressed.keys_last_frame().contains(key),
        !(reset.keys().contains(key) && !reset.keys_last_frame().contains(key)),
        reset.keys().contains(key),
{
}

} // verus!
