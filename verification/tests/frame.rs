use std::cell::RefCell;
use std::rc::Rc;
use vizia::application::{
    length, AppEvent, Application, FrameAction, FramePhase, WindowDescription,
};
use vizia::binding::Data;
use vizia::cache::{BoundingBox, CacheRow};
use vizia::context::{Context, Model, ViewHandler};
use vizia::entity::Entity;
use vizia::events::event::{
    Event, Message, MouseButton, MouseButtonState, Propagation, WindowEvent,
};
use vizia::mouse::Modifiers;
use vizia::style::{Color, Property, Units};
use vizia::tree::TreeError;

type Log = Rc<RefCell<Vec<String>>>;

#[derive(Debug, PartialEq, Clone)]
struct Count(i32);

impl Data for Count {
    fn project(&self, lens: u64) -> Option<Self> {
        if lens == 1 {
            Some(Count(self.0))
        } else {
            None
        }
    }

    fn same(&self, other: &Self) -> bool {
        self.0 == other.0
    }
}

impl Model<Button> for Count {
    fn event(&mut self, _cx: &mut Context<Button, Self>, event: &mut Event<Self>) {
        if let Message::User(Count(by)) = &event.message {
            self.0 += by;
        }
    }
}

struct Button {
    name: &'static str,
    log: Log,
    window_on_click: bool,
}

impl ViewHandler<Count> for Button {
    fn event(&mut self, cx: &mut Context<Self, Count>, event: &mut Event<Count>) {
        match &event.message {
            Message::Window(WindowEvent::MouseDown(_)) => {
                self.log.borrow_mut().push(format!("{}:down", self.name));
                if self.window_on_click {
                    cx.emit(Message::App(AppEvent::CreateWindow));
                }
            }
            Message::App(AppEvent::CreateWindow) => {
                self.log.borrow_mut().push(format!("{}:create", self.name));
            }
            _ => {}
        }
    }

    fn body(&mut self, cx: &mut Context<Self, Count>) {
        self.log.borrow_mut().push(format!("{}:body@{}", self.name, cx.current.index()));
    }
}

type App = Application<Button, Count>;

fn application() -> App {
    let (app, css) = Application::new(WindowDescription::new().with_inner_size(300, 200), "root{}");
    assert_eq!(css, "root{}");
    app
}

/// Stands for the layout solver: every entity gets the size that its style states
/// in pixels.
fn layout(app: &mut App) {
    for entity in app.context.tree.entities() {
        let style = app.context.style.get_resolved(entity);
        if let Units::Pixels(w) = style.width {
            app.context.cache.set_width(entity, w);
        }
        if let Units::Pixels(h) = style.height {
            app.context.cache.set_height(entity, h);
        }
    }
}

/// Runs one frame and returns the actions that it asked for.
fn run_frame(app: &mut App) -> Vec<FrameAction> {
    let mut actions = Vec::new();
    for _ in 0..10_000 {
        let action = app.advance();
        match action {
            FrameAction::Continue => {}
            FrameAction::Layout => {
                layout(app);
                actions.push(action);
            }
            FrameAction::Done => {
                actions.push(action);
                return actions;
            }
            other => actions.push(other),
        }
    }
    panic!("the frame did not end");
}

#[test]
fn new_application_has_a_primary_window() {
    let app = application();
    let window = app.primary_window;
    assert_eq!(app.context.tree.get_parent(window), Some(Entity::root()));
    assert_eq!(app.context.tree.entities(), vec![Entity::root(), window]);
    assert_eq!(app.context.current, window);
    assert_eq!(app.context.hovered, window);
    assert_eq!(app.context.focused, window);
    assert!(app.context.captured.is_null());
    assert_eq!(app.context.cache.get_width(window), 300);
    assert_eq!(app.context.cache.get_height(window), 200);
    assert_eq!(
        app.context.cache.get_clip_region(window),
        BoundingBox { x: 0, y: 0, w: 300, h: 200 }
    );
    assert!(!app.should_poll);
    assert_eq!(app.phase, FramePhase::Rebuild);
    assert_eq!(app.context.resource_manager.themes, vec!["root{}".to_string()]);
    assert!(app.context.style.needs_restyle());
    assert!(app.context.style.needs_relayout());
    assert!(app.context.style.needs_redraw());
}

#[test]
fn builders_set_their_part() {
    let app = application().should_poll().locale("en-US").background_color(Color::white());
    assert!(app.should_poll);
    assert_eq!(app.phase, FramePhase::Rebuild);
    let mut app = app;
    let window = app.primary_window;
    app.context.style.restyle(window, vizia::style::PseudoClasses::none());
    assert_eq!(app.context.style.get_resolved(window).background_color, Color::white());
}

#[test]
fn first_frame_takes_every_step_in_order() {
    let mut app = application();
    app.context.add_font_mem("roboto", &[0, 1]);
    let actions = run_frame(&mut app);
    assert_eq!(
        actions,
        vec![
            FrameAction::Build,
            FrameAction::LoadFonts,
            FrameAction::Layout,
            // the window's size became known: the report waits for the next frame
            FrameAction::Wake,
            FrameAction::RequestRedraw,
            FrameAction::Idle,
            FrameAction::Wake,
            FrameAction::Done,
        ]
    );
    assert_eq!(app.phase, FramePhase::Rebuild);
    assert!(!app.context.enviroment.needs_rebuild);
}

#[test]
fn frame_with_nothing_to_do_asks_for_nothing() {
    let mut app = application();
    run_frame(&mut app);
    run_frame(&mut app);
    let actions = run_frame(&mut app);
    assert_eq!(actions, vec![FrameAction::Idle, FrameAction::Done]);
}

#[test]
fn width_set_by_style_reaches_the_cache_in_one_frame() {
    let (mut app, _css): (App, String) =
        Application::new(WindowDescription::new().with_inner_size(10, 10), "");
    let r = app.primary_window;
    let w = app.context.add_entity(r).unwrap();
    app.context.style.set_property(r, Property::Width(Units::Pixels(100)));
    run_frame(&mut app);
    assert_eq!(app.context.cache.get_width(r), 100);
    assert_eq!(app.context.cache.get_width(w), 0);
    assert!(!app.context.style.needs_relayout());
    assert!(!app.context.style.needs_redraw());
    // the pointer is outside the window: the hovered entity changed in this frame,
    // which asks for styles once more
    assert_eq!(app.context.hovered, Entity::root());
    assert!(app.context.style.needs_restyle());
    run_frame(&mut app);
    run_frame(&mut app);
    assert_eq!(app.context.cache.get_width(r), 100);
    assert!(!app.context.style.needs_restyle());
    assert!(!app.context.style.needs_relayout());
    assert!(!app.context.style.needs_redraw());
}

#[test]
fn frame_clears_the_flags_it_serves() {
    let mut app = application();
    run_frame(&mut app);
    let window = app.primary_window;
    // a paint-only change: styles are resolved, painting is asked for, layout is not
    app.context.style.set_property(window, Property::BackgroundColor(Color::white()));
    assert!(app.context.style.needs_restyle());
    let actions = run_frame(&mut app);
    assert_eq!(
        actions,
        vec![FrameAction::RequestRedraw, FrameAction::Idle, FrameAction::Done]
    );
    assert!(!app.context.style.needs_restyle());
    assert!(!app.context.style.needs_relayout());
    assert!(!app.context.style.needs_redraw());
    // a change of placement: layout is asked for, painting is not
    app.context.style.set_property(window, Property::Left(Units::Pixels(3)));
    let actions = run_frame(&mut app);
    assert_eq!(
        actions,
        vec![FrameAction::Layout, FrameAction::Idle, FrameAction::Done]
    );
    assert!(!app.context.style.needs_restyle());
    assert!(!app.context.style.needs_relayout());
    assert!(!app.context.style.needs_redraw());
}

#[test]
fn restyle_without_effect_leaves_later_flags_alone() {
    let mut app = application();
    run_frame(&mut app);
    app.context.style.set_needs_restyle(true);
    let actions = run_frame(&mut app);
    assert_eq!(actions, vec![FrameAction::Idle, FrameAction::Done]);
    assert!(!app.context.style.needs_restyle());
}

#[test]
fn geometry_change_is_delivered_in_the_next_frame() {
    let mut app = application();
    run_frame(&mut app);
    run_frame(&mut app);
    let window = app.primary_window;
    app.context.cache.set_width(window, 500);
    let actions = run_frame(&mut app);
    // the change was queued after this frame's events were handled
    assert_eq!(
        actions,
        vec![
            FrameAction::Wake,
            FrameAction::Idle,
            FrameAction::Wake,
            FrameAction::Done
        ]
    );
    assert_eq!(app.context.event_queue.len(), 1);
    assert!(matches!(
        app.context.event_queue[0].message,
        Message::Window(WindowEvent::GeometryChanged(_))
    ));
    assert_eq!(app.context.event_queue[0].target, window);
    assert_eq!(app.phase, FramePhase::Rebuild);
    let actions = run_frame(&mut app);
    assert_eq!(actions, vec![FrameAction::Idle, FrameAction::Done]);
    assert!(app.context.event_queue.is_empty());
}

#[test]
fn create_window_request_reaches_the_frame_loop() {
    let log: Log = Rc::new(RefCell::new(Vec::new()));
    let mut app = application();
    let window = app.primary_window;
    let w = app.context.add_entity(window).unwrap();
    app.context
        .insert_view(w, Button { name: "W", log: log.clone(), window_on_click: true })
        .unwrap();
    run_frame(&mut app);
    app.context.enqueue(
        Event::new(Message::Window(WindowEvent::MouseDown(MouseButton::Left)))
            .target(w)
            .propagate(Propagation::Up),
    );
    let actions = run_frame(&mut app);
    assert_eq!(
        actions,
        vec![
            FrameAction::CreateWindow(w),
            FrameAction::Idle,
            FrameAction::Done
        ]
    );
    // W heard of the click once and of its own request once
    assert_eq!(*log.borrow(), vec!["W:down".to_string(), "W:create".to_string()]);
    assert!(app.context.event_queue.is_empty());
}

#[test]
fn changed_lens_rebuilds_its_observer_once_per_frame() {
    let log: Log = Rc::new(RefCell::new(Vec::new()));
    let mut app = application();
    let window = app.primary_window;
    let a = app.context.add_entity(window).unwrap();
    let b = app.context.add_entity(window).unwrap();
    app.context.insert_view(a, Button { name: "A", log: log.clone(), window_on_click: false }).unwrap();
    app.context.add_model(window, 1, Count(0));
    app.context.add_model(a, 1, Count(0));
    app.context.observe(1, a);
    app.context.observe(1, b);
    run_frame(&mut app);
    // the lens showed its first value: A is rebuilt once although two models show it;
    // B has no view and is skipped
    assert_eq!(*log.borrow(), vec![format!("A:body@{}", a.index())]);
    run_frame(&mut app);
    assert_eq!(log.borrow().len(), 1);
    app.context.enqueue(Event::new(Message::User(Count(2))).target(a).propagate(Propagation::Up));
    run_frame(&mut app);
    assert_eq!(app.context.data.get(a).unwrap()[0].model, Count(2));
    assert_eq!(app.context.data.get(window).unwrap()[0].model, Count(2));
    assert_eq!(log.borrow().len(), 2);
    assert_eq!(app.context.current, window);
    run_frame(&mut app);
    assert_eq!(log.borrow().len(), 2);
}

#[test]
fn cursor_moved_updates_hover_and_queues_move() {
    let mut app = application();
    let window = app.primary_window;
    let a = app.context.add_entity(window).unwrap();
    app.context.cache.set_width(a, 50);
    app.context.cache.set_height(a, 50);
    app.context.cache.set_clip_region(a, BoundingBox { x: 0, y: 0, w: 50, h: 50 });
    app.cursor_moved(10, 20);
    assert_eq!(app.context.mouse.cursorx, 10);
    assert_eq!(app.context.mouse.cursory, 20);
    assert_eq!(app.context.hovered, a);
    let last = app.context.event_queue.back().unwrap();
    assert!(matches!(last.message, Message::Window(WindowEvent::MouseMove(10, 20))));
    assert_eq!(last.target, a);
    assert_eq!(last.propagation, Propagation::Up);
    // over the window itself nothing is told
    let queued = app.context.event_queue.len();
    app.cursor_moved(100, 100);
    assert_eq!(app.context.hovered, window);
    assert_eq!(app.context.event_queue.len(), queued + 2);
    // a capturing entity gets the move, and it alone
    app.context.captured = a;
    app.cursor_moved(120, 100);
    let last = app.context.event_queue.back().unwrap();
    assert_eq!(last.target, a);
    assert_eq!(last.propagation, Propagation::Direct);
}

#[test]
fn mouse_input_targets_captured_or_hovered() {
    let mut app = application();
    let window = app.primary_window;
    let a = app.context.add_entity(window).unwrap();
    app.context.hovered = a;
    app.context.mouse.cursorx = 7;
    app.context.mouse.cursory = 8;
    app.mouse_input(MouseButton::Left, MouseButtonState::Pressed);
    {
        let event = app.context.event_queue.back().unwrap();
        assert!(matches!(event.message, Message::Window(WindowEvent::MouseDown(MouseButton::Left))));
        assert_eq!(event.target, a);
        assert_eq!(event.propagation, Propagation::Up);
    }
    assert_eq!(app.context.mouse.left.pressed, a);
    assert_eq!((app.context.mouse.left.down_x, app.context.mouse.left.down_y), (7, 8));
    assert_eq!(app.context.mouse.left.state, MouseButtonState::Pressed);
    app.context.captured = window;
    app.mouse_input(MouseButton::Left, MouseButtonState::Released);
    let event = app.context.event_queue.back().unwrap();
    assert!(matches!(event.message, Message::Window(WindowEvent::MouseUp(MouseButton::Left))));
    assert_eq!(event.target, window);
    assert_eq!(event.propagation, Propagation::Direct);
    assert_eq!(app.context.mouse.left.state, MouseButtonState::Released);
    assert_eq!(app.context.mouse.right.state, MouseButtonState::Released);
    app.mouse_input(MouseButton::Other(4), MouseButtonState::Pressed);
    assert_eq!(app.context.event_queue.len(), 3);
}

#[test]
fn keyboard_input_targets_focused_or_hovered() {
    let mut app = application();
    let window = app.primary_window;
    let a = app.context.add_entity(window).unwrap();
    app.context.focused = a;
    app.keyboard_input(
        keyboard_types::Code::KeyH,
        keyboard_types::Key::Character("h".to_string()),
        MouseButtonState::Pressed,
    );
    {
        let event = app.context.event_queue.back().unwrap();
        assert_eq!(event.target, a);
        assert_eq!(event.propagation, Propagation::Up);
        match &event.message {
            Message::Window(WindowEvent::KeyDown(code, key)) => {
                assert_eq!(*code, keyboard_types::Code::KeyH);
                assert_eq!(*key, keyboard_types::Key::Character("h".to_string()));
            }
            other => panic!("unexpected message {:?}", other),
        }
    }
    app.context.focused = Entity::null();
    app.context.hovered = window;
    app.keyboard_input(
        keyboard_types::Code::Escape,
        keyboard_types::Key::Escape,
        MouseButtonState::Released,
    );
    let event = app.context.event_queue.back().unwrap();
    assert_eq!(event.target, window);
    assert!(matches!(event.message, Message::Window(WindowEvent::KeyUp(_, _))));
    app.context.focused = a;
    app.received_character('x');
    let event = app.context.event_queue.back().unwrap();
    assert_eq!(event.target, a);
    assert!(matches!(event.message, Message::Window(WindowEvent::CharInput('x'))));
}

#[test]
fn resized_sets_size_and_all_flags() {
    let mut app = application();
    run_frame(&mut app);
    let window = app.primary_window;
    app.resized(window, 640, 480);
    assert_eq!(app.context.cache.get_width(window), 640);
    assert_eq!(app.context.cache.get_height(window), 480);
    assert_eq!(
        app.context.cache.get_clip_region(window),
        BoundingBox { x: 0, y: 0, w: 640, h: 480 }
    );
    assert!(app.context.style.needs_restyle());
    assert!(app.context.style.needs_relayout());
    assert!(app.context.style.needs_redraw());
    run_frame(&mut app);
    assert_eq!(app.context.style.get_resolved(window).width, Units::Pixels(640));
    assert_eq!(app.context.style.get_resolved(window).height, Units::Pixels(480));
    assert_eq!(length(u32::MAX), i32::MAX);
    assert_eq!(length(12), 12);
}

#[test]
fn modifiers_changed_sets_the_keys() {
    let mut app = application();
    app.modifiers_changed(true, false, true, false);
    assert_eq!(
        app.context.modifiers,
        Modifiers { shift: true, ctrl: true, alt: false, logo: false }
    );
}

#[test]
fn close_requested_removes_the_window_and_tells_when_none_is_left() {
    let mut app = application();
    let window = app.primary_window;
    let second = app.context.add_entity(Entity::root()).unwrap();
    let child = app.context.add_entity(second).unwrap();
    app.register_window(10, window);
    app.register_window(11, second);
    assert_eq!(app.window_entity(10), Some(window));
    assert_eq!(app.window_entity(11), Some(second));
    assert_eq!(app.window_entity(12), None);
    assert_eq!(app.close_requested(11), Ok(false));
    assert!(!app.context.tree.contains_entity(second));
    assert!(!app.context.tree.contains_entity(child));
    assert_eq!(app.context.cache.get_row(child), CacheRow::new());
    assert_eq!(app.window_entity(11), None);
    assert_eq!(app.close_requested(12), Ok(false));
    assert_eq!(app.close_requested(10), Ok(true));
    assert!(!app.context.tree.contains_entity(window));
    assert_eq!(app.context.tree.entities(), vec![Entity::root()]);
}

#[test]
fn close_requested_keeps_what_stands_beside_the_window() {
    let log: Log = Rc::new(RefCell::new(Vec::new()));
    let mut app = application();
    let window = app.primary_window;
    let second = app.context.add_entity(Entity::root()).unwrap();
    let inside = app.context.add_entity(second).unwrap();
    let beside = app.context.add_entity(window).unwrap();
    app.context.insert_view(inside, Button { name: "in", log: log.clone(), window_on_click: false }).unwrap();
    app.context.insert_view(beside, Button { name: "by", log: log.clone(), window_on_click: false }).unwrap();
    app.context.add_model(inside, 1, Count(3));
    app.context.add_model(beside, 1, Count(4));
    app.context.style.set_property(beside, Property::Width(Units::Pixels(9)));
    app.context.observe(1, inside);
    app.context.observe(1, beside);
    app.register_window(10, window);
    app.register_window(11, second);
    assert_eq!(app.close_requested(11), Ok(false));
    assert!(!app.context.entity_manager.is_alive(inside));
    assert!(!app.context.views.contains_key(inside));
    assert!(!app.context.data.contains_key(inside));
    assert!(!app.context.style.has(inside));
    assert_eq!(app.context.views.get(beside).unwrap().name, "by");
    assert_eq!(app.context.data.get(beside).unwrap()[0].model, Count(4));
    app.context.style.restyle(beside, vizia::style::PseudoClasses::none());
    assert_eq!(app.context.style.get_resolved(beside).width, Units::Pixels(9));
    assert_eq!(app.context.lenses[0].observers, vec![beside]);
    assert!(app.check());
}

#[test]
fn close_requested_returns_the_error_of_a_removal_that_fails() {
    let mut app = application();
    let window = app.primary_window;
    let stale = Entity::new(77, 0);
    app.register_window(10, window);
    app.register_window(20, Entity::root());
    app.register_window(30, stale);
    let before = app.context.tree.entities();
    assert_eq!(app.close_requested(20), Err(TreeError::IsRoot));
    assert_eq!(app.close_requested(30), Err(TreeError::NotFound));
    // nothing was removed and no window forgotten
    assert_eq!(app.context.tree.entities(), before);
    assert_eq!(app.window_entity(20), Some(Entity::root()));
    assert_eq!(app.window_entity(30), Some(stale));
    assert_eq!(app.window_entity(10), Some(window));
    assert!(app.check());
}

#[test]
fn rebuild_flag_is_cleared_after_the_builder_ran() {
    let mut app = application();
    assert_eq!(app.advance(), FrameAction::Build);
    assert_eq!(app.phase, FramePhase::Built);
    // the builder runs now, with the window as the current entity
    assert!(app.context.enviroment.needs_rebuild);
    assert_eq!(app.context.current, app.primary_window);
    assert_eq!(app.context.count, 0);
    assert_eq!(app.advance(), FrameAction::Continue);
    assert!(!app.context.enviroment.needs_rebuild);
    assert_eq!(app.phase, FramePhase::Resources);
    run_frame(&mut app);
    assert_eq!(app.advance(), FrameAction::Continue);
    assert_eq!(app.phase, FramePhase::Resources);
}

#[test]
fn fonts_are_pending_until_they_are_loaded() {
    let mut app = application();
    app.context.add_font_mem("roboto", &[1]);
    let mut asked = 0;
    for _ in 0..3 {
        if run_frame(&mut app).contains(&FrameAction::LoadFonts) {
            asked += 1;
        }
    }
    assert_eq!(asked, 3);
    assert_eq!(app.context.resource_manager.next_pending_font(), Some(0));
}

#[test]
fn new_application_has_no_views_models_or_lenses() {
    let app = application();
    assert_eq!(app.context.views.len(), 0);
    assert_eq!(app.context.data.len(), 0);
    assert!(app.context.lenses.is_empty());
    assert_eq!(app.context.count, 0);
    assert!(app.context.resource_manager.fonts.is_empty());
    assert!(app.event_manager.event_queue.is_empty());
    assert!(app.event_manager.deliveries.is_empty());
}

#[test]
fn idle_step_changes_the_current_entity_and_the_count_alone() {
    let mut app = application();
    let window = app.primary_window;
    let a = app.context.add_entity(window).unwrap();
    app.context.add_model(a, 1, Count(1));
    while app.phase != FramePhase::Idle {
        let action = app.advance();
        if action == FrameAction::Layout {
            layout(&mut app);
        }
    }
    app.context.current = a;
    app.context.count = 3;
    let hovered = app.context.hovered;
    let tree = app.context.tree.entities();
    assert_eq!(app.advance(), FrameAction::Idle);
    assert_eq!(app.context.current, window);
    assert_eq!(app.context.count, 0);
    assert_eq!(app.context.hovered, hovered);
    assert_eq!(app.context.tree.entities(), tree);
    assert_eq!(app.context.data.get(a).unwrap()[0].model, Count(1));
    assert_eq!(app.phase, FramePhase::AfterIdle);
}
