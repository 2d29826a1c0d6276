use vstd::prelude::*;

verus! {

/// The logical state of one key during a frame, as the input layer tracks
/// it between raw press/repeat/release events.
///
/// `Down` and the compound reading of `Pressed`/`Released` exist only as
/// binding targets: a binding registered for `Down` fires while the key is
/// held in any form, and one registered for `Pressed` or `Released` also
/// fires on a press-and-release that happened within a single frame.
#[derive(Eq, PartialEq, Structural, Hash, Clone, Copy, Debug)]
pub enum KeyState {
    /// The user pressed the key in this frame.
    Pressed,
    /// The user has been holding the key for more than one frame.
    Held,
    /// The user released the key in this frame.
    Released,
    /// The key is not being used.
    Unactive,
    /// Pressed and released within the same frame.
    PressedAndReleased,
    /// Pressed, held, or pressed-and-released: any form of "down".
    Down,
}

impl KeyState {
    /// Whether a binding registered for the target state `target` fires
    /// when the key's current state is `current`.
    pub open spec fn spec_triggers(target: KeyState, current: KeyState) -> bool {
        match target {
            KeyState::Down => current != KeyState::Unactive && current != KeyState::Released,
            KeyState::Released => current == KeyState::Released || current
                == KeyState::PressedAndReleased,
            KeyState::Pressed => current == KeyState::Pressed || current
                == KeyState::PressedAndReleased,
            _ => current == target,
        }
    }

    /// The state a key falls into when a frame ends: a fresh press becomes
    /// held, a release (of either kind) becomes unactive, anything else
    /// stays as it is.
    pub open spec fn spec_cycled(self) -> KeyState {
        match self {
            KeyState::Pressed => KeyState::Held,
            KeyState::Released => KeyState::Unactive,
            KeyState::PressedAndReleased => KeyState::Unactive,
            s => s,
        }
    }

    /// The state after a raw press event: only an idle or just-released
    /// key becomes freshly pressed.
    pub open spec fn spec_after_press(self) -> KeyState {
        if self == KeyState::Unactive || self == KeyState::Released {
            KeyState::Pressed
        } else {
            self
        }
    }

    /// The state after a raw release event: a press within the same frame
    /// collapses to pressed-and-released, anything else becomes released.
    pub open spec fn spec_after_release(self) -> KeyState {
        if self == KeyState::Pressed {
            KeyState::PressedAndReleased
        } else {
            KeyState::Released
        }
    }

    /// Whether a binding registered for `self` fires when the key's
    /// current state is `current`.
    pub fn triggers(&self, current: &KeyState) -> (r: bool)
        ensures
            r == KeyState::spec_triggers(*self, *current),
    {
        match self {
            KeyState::Down => *current != KeyState::Unactive && *current != KeyState::Released,
            KeyState::Released => *current == KeyState::Released || *current
                == KeyState::PressedAndReleased,
            KeyState::Pressed => *current == KeyState::Pressed || *current
                == KeyState::PressedAndReleased,
            _ => *current == *self,
        }
    }

    /// The state a key falls into when a frame ends.
    pub fn cycled(&self) -> (r: KeyState)
        ensures
            r == self.spec_cycled(),
    {
        match self {
            KeyState::Pressed => KeyState::Held,
            KeyState::Released => KeyState::Unactive,
            KeyState::PressedAndReleased => KeyState::Unactive,
            KeyState::Held => KeyState::Held,
            KeyState::Unactive => KeyState::Unactive,
            KeyState::Down => KeyState::Down,
        }
    }

    /// The state after a raw press event.
    pub fn after_press(&self) -> (r: KeyState)
        ensures
            r == self.spec_after_press(),
    {
        if *self == KeyState::Unactive || *self == KeyState::Released {
            KeyState::Pressed
        } else {
            self.clone()
        }
    }

    /// The state after a raw repeat event: the key is being held.
    pub fn after_repeat(&self) -> (r: KeyState)
        ensures
            r == KeyState::Held,
    {
        KeyState::Held
    }

    /// The state after a raw release event.
    pub fn after_release(&self) -> (r: KeyState)
        ensures
            r == self.spec_after_release(),
    {
        if *self == KeyState::Pressed {
            KeyState::PressedAndReleased
        } else {
            KeyState::Released
        }
    }
}

} // verus!
