use crate::entity::Entity;
use crate::events::event::MouseButtonState;
use vstd::prelude::*;

verus! {

/// What is known of one mouse button.
#[derive(Clone, Copy, Debug, PartialEq, Eq, Structural)]
pub struct MouseButtonData {
    pub state: MouseButtonState,
    /// Where the pointer was when the button last went down.
    pub down_x: i32,
    pub down_y: i32,
    /// The entity under the pointer when the button last went down.
    pub pressed: Entity,
}

impl MouseButtonData {
    /// A button that is up and never went down.
    pub open spec fn spec_new() -> MouseButtonData {
        MouseButtonData {
            state: MouseButtonState::Released,
            down_x: 0,
            down_y: 0,
            pressed: Entity::spec_null(),
        }
    }

    #[verifier::when_used_as_spec(spec_new)]
    pub fn new() -> (d: MouseButtonData)
        ensures
            d == MouseButtonData::spec_new(),
    {
        MouseButtonData { state: MouseButtonState::Released, down_x: 0, down_y: 0, pressed: Entity::null() }
    }
}

/// Where the pointer is and what its buttons do.
#[derive(Clone, Copy, Debug, PartialEq, Eq, Structural)]
pub struct MouseState {
    pub cursorx: i32,
    pub cursory: i32,
    pub left: MouseButtonData,
    pub right: MouseButtonData,
    pub middle: MouseButtonData,
}

impl MouseState {
    /// The pointer outside of every window, no button held.
    pub open spec fn spec_new() -> MouseState {
        MouseState {
            cursorx: -1i32,
            cursory: -1i32,
            left: MouseButtonData::spec_new(),
            right: MouseButtonData::spec_new(),
            middle: MouseButtonData::spec_new(),
        }
    }

    #[verifier::when_used_as_spec(spec_new)]
    pub fn new() -> (m: MouseState)
        ensures
            m == MouseState::spec_new(),
    {
        MouseState {
            cursorx: -1,
            cursory: -1,
            left: MouseButtonData::new(),
            right: MouseButtonData::new(),
            middle: MouseButtonData::new(),
        }
    }
}

/// Which modifier keys are held.
#[derive(Clone, Copy, Debug, PartialEq, Eq, Structural)]
pub struct Modifiers {
    pub shift: bool,
    pub ctrl: bool,
    pub alt: bool,
    pub logo: bool,
}

impl Modifiers {
    /// No modifier key is held.
    pub open spec fn spec_empty() -> Modifiers {
        Modifiers { shift: false, ctrl: false, alt: false, logo: false }
    }

    #[verifier::when_used_as_spec(spec_empty)]
    pub fn empty() -> (m: Modifiers)
        ensures
            m == Modifiers::spec_empty(),
    {
        Modifiers { shift: false, ctrl: false, alt: false, logo: false }
    }
}

} // verus!
