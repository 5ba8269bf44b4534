use std::cell::RefCell;
use std::rc::Rc;
use vizia::application::AppEvent;
use vizia::binding::Data;
use vizia::context::{Context, Model, ViewHandler};
use vizia::entity::Entity;
use vizia::events::event::{Event, Message, MouseButton, Propagation, WindowEvent};
use vizia::events::event_manager::{propagation_path, EventManager};
use vizia::tree::Tree;

type Log = Rc<RefCell<Vec<String>>>;

#[derive(Debug, PartialEq)]
struct Note(i32);

impl Data for Note {
    fn project(&self, _lens: u64) -> Option<Self> {
        None
    }

    fn same(&self, other: &Self) -> bool {
        self.0 == other.0
    }
}

impl Model<Widget> for Note {
    fn event(&mut self, cx: &mut Context<Widget, Self>, _event: &mut Event<Self>) {
        self.0 += 1;
        assert!(!cx.current.is_null());
    }
}

struct Widget {
    name: &'static str,
    log: Log,
    consume: bool,
    ask_for_window: bool,
    emit: Option<i32>,
    remove_self: bool,
    consume_user: bool,
    seen: u32,
}

impl Widget {
    fn new(name: &'static str, log: &Log) -> Widget {
        Widget {
            name,
            log: log.clone(),
            consume: false,
            ask_for_window: false,
            emit: None,
            remove_self: false,
            consume_user: false,
            seen: 0,
        }
    }
}

impl ViewHandler<Note> for Widget {
    fn event(&mut self, cx: &mut Context<Self, Note>, event: &mut Event<Note>) {
        let what = match &event.message {
            Message::App(_) => "app",
            Message::Window(_) => "window",
            Message::User(_) => "user",
            Message::Wake => "wake",
        };
        self.log.borrow_mut().push(format!("{}:{}", self.name, what));
        self.seen += 1;
        if self.consume_user && what == "user" {
            event.consume();
        }
        if let Message::Window(WindowEvent::MouseDown(_)) = &event.message {
            if self.ask_for_window {
                cx.emit(Message::App(AppEvent::CreateWindow));
            }
        }
        if let Some(value) = self.emit.take() {
            cx.emit(Message::User(Note(value)));
        }
        if self.remove_self {
            let me = cx.current;
            cx.remove(me).unwrap();
        }
        if self.consume {
            event.consume();
        }
    }

    fn body(&mut self, _cx: &mut Context<Self, Note>) {
        self.log.borrow_mut().push(format!("{}:body", self.name));
    }
}

struct Chain {
    cx: Context<Widget, Note>,
    a: Entity,
    b: Entity,
    c: Entity,
    log: Log,
}

/// root -> A -> B -> C, each with a view that records what reaches it
fn chain() -> Chain {
    let log: Log = Rc::new(RefCell::new(Vec::new()));
    let mut cx: Context<Widget, Note> = Context::new();
    let a = cx.add_entity(Entity::root()).unwrap();
    let b = cx.add_entity(a).unwrap();
    let c = cx.add_entity(b).unwrap();
    cx.insert_view(a, Widget::new("A", &log)).unwrap();
    cx.insert_view(b, Widget::new("B", &log)).unwrap();
    cx.insert_view(c, Widget::new("C", &log)).unwrap();
    Chain { cx, a, b, c, log }
}

fn pointer_down() -> Message<Note> {
    Message::Window(WindowEvent::MouseDown(MouseButton::Left))
}

fn entries(log: &Log) -> Vec<String> {
    log.borrow().clone()
}

#[test]
fn up_event_reaches_target_then_ancestors_in_order() {
    let mut t = chain();
    t.cx.enqueue(Event::new(pointer_down()).target(t.c).propagate(Propagation::Up));
    let mut manager = EventManager::new();
    let app_events = manager.flush_events(&mut t.cx);
    assert!(app_events.is_empty());
    assert_eq!(entries(&t.log), vec!["C:window", "B:window", "A:window"]);
    let offered: Vec<Entity> = manager.deliveries[0].iter().map(|d| d.entity).collect();
    assert_eq!(offered, vec![t.c, t.b, t.a, Entity::root()]);
    assert!(manager.deliveries[0].iter().all(|d| !d.consumed));
    assert_eq!(
        manager.deliveries[0].iter().map(|d| d.had_view).collect::<Vec<_>>(),
        vec![true, true, true, false]
    );
}

#[test]
fn consumed_event_stops_before_the_next_ancestor() {
    let mut t = chain();
    t.cx.views.get_mut(t.b).unwrap().consume = true;
    t.cx.enqueue(Event::new(pointer_down()).target(t.c).propagate(Propagation::Up));
    let mut manager = EventManager::new();
    manager.flush_events(&mut t.cx);
    assert_eq!(entries(&t.log), vec!["C:window", "B:window"]);
    let offered: Vec<Entity> = manager.deliveries[0].iter().map(|d| d.entity).collect();
    assert_eq!(offered, vec![t.c, t.b]);
    assert!(!manager.deliveries[0][0].consumed);
    assert!(manager.deliveries[0][1].consumed);
    assert!(manager.event_queue[0].consumed);
}

#[test]
fn event_consumed_by_target_reaches_no_ancestor() {
    let mut t = chain();
    t.cx.views.get_mut(t.c).unwrap().consume = true;
    t.cx.enqueue(Event::new(pointer_down()).target(t.c));
    let mut manager = EventManager::new();
    manager.flush_events(&mut t.cx);
    assert_eq!(entries(&t.log), vec!["C:window"]);
}

#[test]
fn direct_event_reaches_only_the_target() {
    let mut t = chain();
    t.cx.enqueue(Event::new(pointer_down()).target(t.c).propagate(Propagation::Direct));
    let mut manager = EventManager::new();
    manager.flush_events(&mut t.cx);
    assert_eq!(entries(&t.log), vec!["C:window"]);
    assert_eq!(manager.deliveries.len(), 1);
    assert_eq!(manager.deliveries[0].len(), 1);
    assert_eq!(manager.deliveries[0][0].entity, t.c);
}

#[test]
fn events_are_handled_in_the_order_of_queueing() {
    let mut t = chain();
    t.cx.enqueue(Event::new(pointer_down()).target(t.a).propagate(Propagation::Direct));
    t.cx.enqueue(Event::new(Message::User(Note(1))).target(t.c).propagate(Propagation::Direct));
    t.cx.enqueue(Event::new(Message::Wake).target(t.b).propagate(Propagation::Direct));
    let mut manager = EventManager::new();
    manager.flush_events(&mut t.cx);
    assert_eq!(entries(&t.log), vec!["A:window", "C:user", "B:wake"]);
    assert_eq!(manager.deliveries.len(), 3);
    assert_eq!(manager.deliveries[2][0].event, 2);
}

#[test]
fn events_queued_by_handlers_wait_for_the_next_flush() {
    let mut t = chain();
    t.cx.views.get_mut(t.c).unwrap().emit = Some(5);
    t.cx.enqueue(Event::new(pointer_down()).target(t.c).propagate(Propagation::Direct));
    let mut manager = EventManager::new();
    manager.flush_events(&mut t.cx);
    assert_eq!(entries(&t.log), vec!["C:window"]);
    assert_eq!(t.cx.event_queue.len(), 1);
    assert_eq!(t.cx.event_queue[0].target, t.c);
    assert_eq!(t.cx.event_queue[0].origin, t.c);
    assert_eq!(t.cx.event_queue[0].propagation, Propagation::Up);
    manager.flush_events(&mut t.cx);
    assert_eq!(
        entries(&t.log),
        vec!["C:window", "C:user", "B:user", "A:user"]
    );
    assert!(t.cx.event_queue.is_empty());
}

#[test]
fn create_window_request_is_returned_and_not_delivered_twice() {
    let mut t = chain();
    t.cx.views.get_mut(t.c).unwrap().ask_for_window = true;
    t.cx.enqueue(Event::new(pointer_down()).target(t.c).propagate(Propagation::Up));
    let mut manager = EventManager::new();
    let first = manager.flush_events(&mut t.cx);
    // the request was raised during the flush: it waits in the queue
    assert!(first.is_empty());
    assert_eq!(t.cx.event_queue.len(), 1);
    let before = entries(&t.log).len();
    let second = manager.flush_events(&mut t.cx);
    assert_eq!(second.len(), 1);
    assert!(matches!(second[0].message, Message::App(AppEvent::CreateWindow)));
    assert_eq!(second[0].target, t.c);
    assert_eq!(second[0].origin, t.c);
    assert!(!second[0].consumed);
    // the request itself travelled once along the path of its carrier
    let after = entries(&t.log);
    assert_eq!(after[before..].to_vec(), vec!["C:app", "B:app", "A:app"]);
    assert!(t.cx.event_queue.is_empty());
    let third = manager.flush_events(&mut t.cx);
    assert!(third.is_empty());
    assert_eq!(entries(&t.log).len(), after.len());
}

#[test]
fn app_requests_are_collected_in_order() {
    let mut t = chain();
    t.cx.enqueue(Event::new(Message::App(AppEvent::CreateWindow)).target(t.a).origin(t.b));
    t.cx.enqueue(Event::new(pointer_down()).target(t.a));
    t.cx.enqueue(
        Event::new(Message::App(AppEvent::CreateWindow)).target(t.c).origin(t.c).trace(),
    );
    let mut manager = EventManager::new();
    let requests = manager.flush_events(&mut t.cx);
    assert_eq!(requests.len(), 2);
    assert_eq!((requests[0].target, requests[0].origin), (t.a, t.b));
    assert_eq!((requests[1].target, requests[1].origin), (t.c, t.c));
    assert!(!requests[1].trace);
    assert_eq!(requests[1].propagation, Propagation::Up);
}

#[test]
fn models_receive_events_after_the_view() {
    let mut t = chain();
    assert!(t.cx.add_model(t.b, 7, Note(0)));
    assert!(t.cx.add_model(t.b, 8, Note(10)));
    t.cx.enqueue(Event::new(pointer_down()).target(t.c));
    let mut manager = EventManager::new();
    manager.flush_events(&mut t.cx);
    let models = t.cx.data.get(t.b).unwrap();
    assert_eq!(models[0].model, Note(1));
    assert_eq!(models[1].model, Note(11));
    assert_eq!(models[0].tag, 7);
}

#[test]
fn dispatch_follows_the_tree_as_it_was_at_the_start() {
    let mut t = chain();
    t.cx.views.get_mut(t.c).unwrap().remove_self = true;
    t.cx.enqueue(Event::new(pointer_down()).target(t.c));
    let mut manager = EventManager::new();
    manager.flush_events(&mut t.cx);
    // the target removed itself, its ancestors still got the event
    assert_eq!(entries(&t.log), vec!["C:window", "B:window", "A:window"]);
    assert!(!t.cx.tree.contains_entity(t.c));
    assert!(!t.cx.views.contains_key(t.c));
    assert!(!t.cx.entity_manager.is_alive(t.c));
    assert_eq!(manager.tree.len(), 4);
}

#[test]
fn event_for_nobody_is_discarded() {
    let mut t = chain();
    t.cx.enqueue(Event::new(pointer_down()));
    t.cx.enqueue(Event::new(pointer_down()).target(Entity::new(40, 0)));
    let mut manager = EventManager::new();
    let requests = manager.flush_events(&mut t.cx);
    assert!(requests.is_empty());
    assert!(entries(&t.log).is_empty());
    assert_eq!(manager.deliveries.len(), 2);
    assert_eq!(manager.deliveries[0][0].entity, Entity::null());
    assert!(!manager.deliveries[0][0].had_view);
}

#[test]
fn current_is_the_recipient_during_delivery() {
    let mut t = chain();
    t.cx.views.get_mut(t.b).unwrap().emit = Some(1);
    t.cx.current = t.a;
    t.cx.enqueue(Event::new(pointer_down()).target(t.c));
    let mut manager = EventManager::new();
    manager.flush_events(&mut t.cx);
    // B emitted while it was current
    assert_eq!(t.cx.event_queue[0].origin, t.b);
    assert_eq!(t.cx.event_queue[0].target, t.b);
}

#[test]
fn propagation_path_of_up_and_direct() {
    let mut tree = Tree::new();
    let a = Entity::new(1, 0);
    let b = Entity::new(2, 0);
    tree.add(a, Entity::root()).unwrap();
    tree.add(b, a).unwrap();
    assert_eq!(propagation_path(&tree, b, Propagation::Up), vec![b, a, Entity::root()]);
    assert_eq!(propagation_path(&tree, b, Propagation::Direct), vec![b]);
    assert_eq!(propagation_path(&tree, Entity::new(9, 0), Propagation::Up), vec![Entity::new(9, 0)]);
}

#[test]
fn event_builders_set_their_field() {
    let event: Event<Note> = Event::new(Message::Wake);
    assert!(event.target.is_null());
    assert!(event.origin.is_null());
    assert_eq!(event.propagation, Propagation::Up);
    assert!(!event.consumed);
    assert!(!event.trace);
    let event = event.target(Entity::root()).origin(Entity::new(2, 0)).propagate(Propagation::Direct).trace();
    assert_eq!(event.target, Entity::root());
    assert_eq!(event.origin, Entity::new(2, 0));
    assert_eq!(event.propagation, Propagation::Direct);
    assert!(event.trace);
    assert_eq!(event.get_app_request(), None);
}

#[test]
fn emit_targets_the_current_entity() {
    let mut t = chain();
    t.cx.current = t.b;
    t.cx.emit(Message::User(Note(3)));
    t.cx.emit_trace(Message::Wake);
    assert_eq!(t.cx.event_queue.len(), 2);
    assert_eq!(t.cx.event_queue[0].target, t.b);
    assert_eq!(t.cx.event_queue[0].origin, t.b);
    assert!(!t.cx.event_queue[0].trace);
    assert!(t.cx.event_queue[1].trace);
    assert_eq!(t.cx.event_queue[1].propagation, Propagation::Up);
}

#[test]
fn consumed_mark_is_not_carried_over_to_the_next_event() {
    let mut t = chain();
    t.cx.views.get_mut(t.c).unwrap().consume_user = true;
    t.cx.enqueue(Event::new(Message::User(Note(1))).target(t.c).propagate(Propagation::Up));
    t.cx.enqueue(Event::new(pointer_down()).target(t.c).propagate(Propagation::Up));
    let mut manager = EventManager::new();
    manager.flush_events(&mut t.cx);
    assert_eq!(entries(&t.log), vec!["C:user", "C:window", "B:window", "A:window"]);
    assert!(manager.event_queue[0].consumed);
    assert!(!manager.event_queue[1].consumed);
    assert_eq!(manager.deliveries[0].len(), 1);
    assert_eq!(manager.deliveries[1].len(), 4);
    assert!(t.cx.event_queue.is_empty());
}

#[test]
fn flush_puts_views_and_models_back_where_they_were() {
    let mut t = chain();
    assert!(t.cx.add_model(t.c, 7, Note(0)));
    assert!(t.cx.add_model(t.a, 9, Note(5)));
    let tree = t.cx.tree.entities();
    let flags = (t.cx.style.needs_restyle(), t.cx.style.needs_relayout(), t.cx.style.needs_redraw());
    let row = t.cx.cache.get_row(t.b);
    t.cx.enqueue(Event::new(pointer_down()).target(t.c).propagate(Propagation::Up));
    let mut manager = EventManager::new();
    manager.flush_events(&mut t.cx);
    assert_eq!(t.cx.views.len(), 3);
    assert_eq!(t.cx.data.len(), 2);
    // the same views, each having seen the event once
    for (entity, name) in [(t.a, "A"), (t.b, "B"), (t.c, "C")] {
        let view = t.cx.views.get(entity).unwrap();
        assert_eq!(view.name, name);
        assert_eq!(view.seen, 1);
    }
    // the same models under the same tags, each having seen it once
    assert_eq!(t.cx.data.get(t.c).unwrap()[0].tag, 7);
    assert_eq!(t.cx.data.get(t.c).unwrap()[0].model, Note(1));
    assert_eq!(t.cx.data.get(t.a).unwrap()[0].tag, 9);
    assert_eq!(t.cx.data.get(t.a).unwrap()[0].model, Note(6));
    assert_eq!(t.cx.tree.entities(), tree);
    assert_eq!(t.cx.cache.get_row(t.b), row);
    assert_eq!(
        (t.cx.style.needs_restyle(), t.cx.style.needs_relayout(), t.cx.style.needs_redraw()),
        flags
    );
    assert!(t.cx.event_queue.is_empty());
    assert!(t.cx.check());
}

#[test]
fn handlers_of_a_removed_entity_are_not_put_back() {
    let mut t = chain();
    assert!(t.cx.add_model(t.c, 7, Note(0)));
    t.cx.views.get_mut(t.c).unwrap().remove_self = true;
    t.cx.enqueue(Event::new(pointer_down()).target(t.c).propagate(Propagation::Direct));
    // a second event for the entity that is gone by then finds nobody
    t.cx.enqueue(Event::new(pointer_down()).target(t.c).propagate(Propagation::Direct));
    let mut manager = EventManager::new();
    manager.flush_events(&mut t.cx);
    assert_eq!(entries(&t.log), vec!["C:window"]);
    assert!(!t.cx.views.contains_key(t.c));
    assert!(!t.cx.data.contains_key(t.c));
    assert!(manager.deliveries[0][0].had_view);
    assert!(!manager.deliveries[1][0].had_view);
    assert_eq!(t.cx.views.len(), 2);
    assert!(t.cx.check());
}
