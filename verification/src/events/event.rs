use crate::application::AppEvent;
use crate::entity::Entity;
use vstd::prelude::*;

verus! {

/// A physical key, as `keyboard_types` names it. The runtime carries it from the
/// platform to the handlers and never looks inside.
#[verifier::external_type_specification]
#[verifier::external_body]
pub struct ExCode(keyboard_types::Code);

/// The meaning of a key press, as `keyboard_types` names it. The runtime carries it
/// from the platform to the handlers and never looks inside.
#[verifier::external_type_specification]
#[verifier::external_body]
pub struct ExKey(keyboard_types::Key);

/// How far an event travels.
#[derive(Clone, Copy, Debug, PartialEq, Eq, Structural)]
pub enum Propagation {
    /// To the target alone.
    Direct,
    /// To the target, then to each ancestor in turn up to the root.
    Up,
}

/// A button of the mouse.
#[derive(Clone, Copy, Debug, PartialEq, Eq, Structural)]
pub enum MouseButton {
    Left,
    Right,
    Middle,
    Other(u16),
}

/// Whether a button or key is held.
#[derive(Clone, Copy, Debug, PartialEq, Eq, Structural)]
pub enum MouseButtonState {
    Pressed,
    Released,
}

/// Which parts of an entity's bounds differ from the ones last reported.
#[derive(Clone, Copy, Debug, PartialEq, Eq, Structural)]
pub struct GeometryChanged {
    pub posx: bool,
    pub posy: bool,
    pub width: bool,
    pub height: bool,
}

impl GeometryChanged {
    /// Whether any part changed.
    pub open spec fn any(self) -> bool {
        self.posx || self.posy || self.width || self.height
    }

    #[verifier::when_used_as_spec(any)]
    pub fn is_any(self) -> (b: bool)
        ensures
            b == self.any(),
    {
        self.posx || self.posy || self.width || self.height
    }
}

/// What the platform and the runtime tell the widgets.
#[derive(Debug)]
pub enum WindowEvent {
    GeometryChanged(GeometryChanged),
    MouseMove(i32, i32),
    MouseDown(MouseButton),
    MouseUp(MouseButton),
    MouseEnter,
    MouseLeave,
    KeyDown(keyboard_types::Code, keyboard_types::Key),
    KeyUp(keyboard_types::Code, keyboard_types::Key),
    CharInput(char),
}

/// What an event carries: a request to the frame loop, a window event, something
/// of the application's own, or nothing at all (an event that only wakes the loop).
#[derive(Debug)]
pub enum Message<M> {
    App(AppEvent),
    Window(WindowEvent),
    User(M),
    Wake,
}

/// A message on its way to an entity.
#[derive(Debug)]
pub struct Event<M> {
    pub message: Message<M>,
    /// The entity the event is delivered to first.
    pub target: Entity,
    /// The entity that sent it.
    pub origin: Entity,
    pub propagation: Propagation,
    /// Set by a handler to stop the event from travelling further.
    pub consumed: bool,
    /// Asks for this event's deliveries to be reported.
    pub trace: bool,
}

impl<M> Event<M> {
    /// An event for nobody yet: no target, no origin, travelling upwards.
    pub fn new(message: Message<M>) -> (e: Self)
        ensures
            e.message == message,
            e.target == Entity::spec_null(),
            e.origin == Entity::spec_null(),
            e.propagation == Propagation::Up,
            !e.consumed,
            !e.trace,
    {
        Event {
            message,
            target: Entity::null(),
            origin: Entity::null(),
            propagation: Propagation::Up,
            consumed: false,
            trace: false,
        }
    }

    /// The event with `entity` as the one it is delivered to first.
    pub fn target(self, entity: Entity) -> (e: Self)
        ensures
            e == (Event { target: entity, ..self }),
    {
        let mut e = self;
        e.target = entity;
        e
    }

    /// The event with `entity` as its sender.
    pub fn origin(self, entity: Entity) -> (e: Self)
        ensures
            e == (Event { origin: entity, ..self }),
    {
        let mut e = self;
        e.origin = entity;
        e
    }

    /// The event travelling as `propagation` says.
    pub fn propagate(self, propagation: Propagation) -> (e: Self)
        ensures
            e == (Event { propagation, ..self }),
    {
        let mut e = self;
        e.propagation = propagation;
        e
    }

    /// The event asking for its deliveries to be reported.
    pub fn trace(self) -> (e: Self)
        ensures
            e == (Event { trace: true, ..self }),
    {
        let mut e = self;
        e.trace = true;
        e
    }

    /// Stops the event from travelling further.
    pub fn consume(&mut self)
        ensures
            *final(self) == (Event { consumed: true, ..*old(self) }),
    {
        self.consumed = true;
    }

    /// The request to the frame loop that this event carries, if it carries one.
    pub open spec fn app_request(&self) -> Option<AppEvent> {
        match self.message {
            Message::App(a) => Some(a),
            _ => None,
        }
    }

    #[verifier::when_used_as_spec(app_request)]
    pub fn get_app_request(&self) -> (r: Option<AppEvent>)
        ensures
            r == self.app_request(),
    {
        match &self.message {
            Message::App(a) => Some(*a),
            _ => None,
        }
    }
}

} // verus!
