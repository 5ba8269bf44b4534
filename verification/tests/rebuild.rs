use std::cell::RefCell;
use std::rc::Rc;
use vizia::application::rebuild;
use vizia::binding::Data;
use vizia::context::{Context, ViewHandler};
use vizia::entity::Entity;
use vizia::events::event::Event;

#[derive(Debug, PartialEq, Clone)]
struct Silent;

impl Data for Silent {
    fn project(&self, _lens: u64) -> Option<Self> {
        None
    }

    fn same(&self, _other: &Self) -> bool {
        true
    }
}

#[derive(Debug, PartialEq, Clone, Copy)]
enum Plan {
    Look,
    AddChild,
    RemoveSelf,
}

/// What a builder saw when it was asked to build: its name, the current entity,
/// the count, and whether the current entity had a view.
type Seen = Rc<RefCell<Vec<(&'static str, Entity, usize, bool)>>>;

struct Builder {
    name: &'static str,
    plan: Plan,
    built: u32,
    seen: Seen,
}

impl ViewHandler<Silent> for Builder {
    fn event(&mut self, _cx: &mut Context<Self, Silent>, _event: &mut Event<Silent>) {}

    fn body(&mut self, cx: &mut Context<Self, Silent>) {
        self.built += 1;
        self.seen.borrow_mut().push((self.name, cx.current, cx.count, cx.views.contains_key(cx.current)));
        match self.plan {
            Plan::Look => {}
            Plan::AddChild => {
                cx.add_entity(cx.current).unwrap();
            }
            Plan::RemoveSelf => {
                cx.remove(cx.current).unwrap();
            }
        }
    }
}

type Cx = Context<Builder, Silent>;

fn builder(name: &'static str, plan: Plan, seen: &Seen) -> Builder {
    Builder { name, plan, built: 0, seen: seen.clone() }
}

fn pair(first: Plan, second: Plan) -> (Cx, Entity, Entity, Seen) {
    let seen: Seen = Rc::new(RefCell::new(Vec::new()));
    let mut cx: Cx = Context::new();
    let a = cx.add_entity(Entity::root()).unwrap();
    let b = cx.add_entity(Entity::root()).unwrap();
    cx.insert_view(a, builder("A", first, &seen)).unwrap();
    cx.insert_view(b, builder("B", second, &seen)).unwrap();
    (cx, a, b, seen)
}

#[test]
fn rebuild_without_observers_calls_nobody() {
    let (mut cx, a, b, seen) = pair(Plan::Look, Plan::Look);
    rebuild(&mut cx, &Vec::new());
    assert!(seen.borrow().is_empty());
    assert_eq!(cx.views.get(a).unwrap().built, 0);
    assert_eq!(cx.views.get(b).unwrap().built, 0);
    assert!(cx.check());
}

#[test]
fn rebuild_has_the_views_build_in_the_order_of_the_observers() {
    let (mut cx, a, b, seen) = pair(Plan::Look, Plan::Look);
    rebuild(&mut cx, &vec![b, a, b]);
    let names: Vec<&str> = seen.borrow().iter().map(|s| s.0).collect();
    assert_eq!(names, vec!["B", "A", "B"]);
    assert_eq!(cx.views.get(a).unwrap().built, 1);
    assert_eq!(cx.views.get(b).unwrap().built, 2);
}

#[test]
fn rebuild_skips_an_observer_without_a_view() {
    let (mut cx, a, _b, seen) = pair(Plan::Look, Plan::Look);
    let bare = cx.add_entity(a).unwrap();
    let stale = Entity::new(40, 0);
    rebuild(&mut cx, &vec![bare, stale, Entity::null(), a]);
    let names: Vec<&str> = seen.borrow().iter().map(|s| s.0).collect();
    assert_eq!(names, vec!["A"]);
    assert!(!cx.views.contains_key(bare));
    assert!(cx.check());
}

#[test]
fn rebuild_hands_over_the_observer_as_current_and_restores_what_was() {
    let (mut cx, a, b, seen) = pair(Plan::Look, Plan::Look);
    cx.current = b;
    cx.count = 7;
    rebuild(&mut cx, &vec![a]);
    // the view is out of the context while it builds
    assert_eq!(*seen.borrow(), vec![("A", a, 0, false)]);
    assert_eq!(cx.current, b);
    assert_eq!(cx.count, 7);
    assert!(cx.views.contains_key(a));
}

#[test]
fn rebuild_keeps_what_the_view_did_to_the_context() {
    let (mut cx, a, b, _seen) = pair(Plan::AddChild, Plan::Look);
    let before = cx.tree.entities().len();
    rebuild(&mut cx, &vec![a, a]);
    assert_eq!(cx.tree.entities().len(), before + 2);
    assert_eq!(cx.tree.children(a).len(), 2);
    assert_eq!(cx.tree.children(b).len(), 0);
    assert_eq!(cx.views.get(a).unwrap().built, 2);
    assert!(cx.check());
}

#[test]
fn rebuild_does_not_put_back_the_view_of_an_entity_that_is_gone() {
    let (mut cx, a, b, seen) = pair(Plan::RemoveSelf, Plan::Look);
    rebuild(&mut cx, &vec![a, b, a]);
    let names: Vec<&str> = seen.borrow().iter().map(|s| s.0).collect();
    // the second turn of A finds no view
    assert_eq!(names, vec!["A", "B"]);
    assert!(!cx.entity_manager.is_alive(a));
    assert!(!cx.views.contains_key(a));
    assert!(cx.views.contains_key(b));
    assert_eq!(cx.current, Entity::root());
    assert!(cx.check());
}
