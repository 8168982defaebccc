//! The state of the modifier keys.

use vstd::prelude::*;

verus! {

/// A modifier key, on either side of the keyboard.
#[derive(Clone, Copy, Debug, PartialEq, Eq, Structural)]
pub enum Modifier {
    LeftCtrl,
    RightCtrl,
    LeftShift,
    RightShift,
    LeftAlt,
    RightAlt,
}

/// Which modifier keys are held down.
#[derive(Clone, Copy, Debug, PartialEq, Eq, Structural)]
pub struct KeyState {
    pub left_ctrl_down: bool,
    pub right_ctrl_down: bool,
    pub left_shift_down: bool,
    pub right_shift_down: bool,
    pub left_alt_down: bool,
    pub right_alt_down: bool,
}

impl KeyState {
    /// No key held down.
    pub fn new() -> (r: KeyState)
        ensures
            !r.left_ctrl_down && !r.right_ctrl_down,
            !r.left_shift_down && !r.right_shift_down,
            !r.left_alt_down && !r.right_alt_down,
    {
        KeyState {
            left_ctrl_down: false,
            right_ctrl_down: false,
            left_shift_down: false,
            right_shift_down: false,
            left_alt_down: false,
            right_alt_down: false,
        }
    }

    /// Either control key is down.
    pub fn ctrl(&self) -> (r: bool)
        ensures
            r == (self.left_ctrl_down || self.right_ctrl_down),
    {
        self.left_ctrl_down || self.right_ctrl_down
    }

    /// Either shift key is down.
    pub fn shift(&self) -> (r: bool)
        ensures
            r == (self.left_shift_down || self.right_shift_down),
    {
        self.left_shift_down || self.right_shift_down
    }

    /// Either alt key is down.
    pub fn alt(&self) -> (r: bool)
        ensures
            r == (self.left_alt_down || self.right_alt_down),
    {
        self.left_alt_down || self.right_alt_down
    }

    /// Whether `key` is held down.
    pub open spec fn is_down(self, key: Modifier) -> bool {
        match key {
            Modifier::LeftCtrl => self.left_ctrl_down,
            Modifier::RightCtrl => self.right_ctrl_down,
            Modifier::LeftShift => self.left_shift_down,
            Modifier::RightShift => self.right_shift_down,
            Modifier::LeftAlt => self.left_alt_down,
            Modifier::RightAlt => self.right_alt_down,
        }
    }

    /// Records that `key` went down (`down`) or up; the other keys keep their state.
    pub fn set(&mut self, key: Modifier, down: bool)
        ensures
            final(self).is_down(key) == down,
            forall|k: Modifier| k != key ==> #[trigger] final(self).is_down(k) == old(self).is_down(k),
    {
        match key {
            Modifier::LeftCtrl => self.left_ctrl_down = down,
            Modifier::RightCtrl => self.right_ctrl_down = down,
            Modifier::LeftShift => self.left_shift_down = down,
            Modifier::RightShift => self.right_shift_down = down,
            Modifier::LeftAlt => self.left_alt_down = down,
            Modifier::RightAlt => self.right_alt_down = down,
        }
    }
}

} // verus!
