use vizia::binding::{merge_observers, Data, LensState};
use vizia::application::update_lenses;
use vizia::cache::CacheRow;
use vizia::context::{Context, Enviroment, Model, ViewHandler};
use vizia::entity::Entity;
use vizia::events::event::{Event, GeometryChanged, Message, Propagation, WindowEvent};
use vizia::layout::{compare_bounds, geometry_changed};
use vizia::cache::BoundingBox;
use vizia::resource::{FontOrId, ResourceManager};
use vizia::style::{Appearance, Property, PseudoClasses, Rule, Selector, Units};
use vizia::tree::TreeError;

#[derive(Debug, PartialEq, Clone)]
enum Value {
    Counter { count: i32, label: String },
    Number(i32),
    Text(String),
}

const COUNT: u64 = 1;
const LABEL: u64 = 2;

impl Data for Value {
    fn project(&self, lens: u64) -> Option<Self> {
        match (self, lens) {
            (Value::Counter { count, .. }, COUNT) => Some(Value::Number(*count)),
            (Value::Counter { label, .. }, LABEL) => Some(Value::Text(label.clone())),
            _ => None,
        }
    }

    fn same(&self, other: &Self) -> bool {
        self == other
    }
}

struct Plain;

impl Model<Plain> for Value {
    fn event(&mut self, _cx: &mut Context<Plain, Self>, _event: &mut Event<Self>) {}
}

impl ViewHandler<Value> for Plain {
    fn event(&mut self, _cx: &mut Context<Self, Value>, _event: &mut Event<Value>) {}

    fn body(&mut self, _cx: &mut Context<Self, Value>) {}
}

type Cx = Context<Plain, Value>;

fn family() -> (Cx, Entity, Entity, Entity) {
    let mut cx: Cx = Context::new();
    let a = cx.add_entity(Entity::root()).unwrap();
    let b = cx.add_entity(a).unwrap();
    let c = cx.add_entity(b).unwrap();
    (cx, a, b, c)
}

#[test]
fn new_context_holds_the_root() {
    let cx: Cx = Context::new();
    assert_eq!(cx.tree.entities(), vec![Entity::root()]);
    assert!(cx.entity_manager.is_alive(Entity::root()));
    assert!(cx.cache.has(Entity::root()));
    assert_eq!(cx.current, Entity::root());
    assert_eq!(cx.hovered, Entity::root());
    assert_eq!(cx.focused, Entity::root());
    assert!(cx.captured.is_null());
    assert!(cx.event_queue.is_empty());
    assert!(cx.enviroment.needs_rebuild);
}

#[test]
fn enviroment_starts_needing_rebuild() {
    let mut env = Enviroment::new();
    assert!(env.needs_rebuild);
    env.needs_rebuild = false;
    env.set_locale("fr");
    assert!(!env.needs_rebuild);
}

#[test]
fn add_entity_creates_rows() {
    let (cx, a, b, c) = family();
    assert_eq!(cx.tree.entities(), vec![Entity::root(), a, b, c]);
    for entity in [a, b, c] {
        assert!(cx.entity_manager.is_alive(entity));
        assert!(cx.cache.has(entity));
        assert_eq!(cx.cache.get_row(entity), CacheRow::new());
        assert!(cx.style.has(entity));
    }
    assert!(cx.style.needs_restyle());
}

#[test]
fn add_entity_fails_without_parent() {
    let (mut cx, _a, _b, _c) = family();
    assert_eq!(cx.add_entity(Entity::new(77, 0)), None);
    assert_eq!(cx.add_entity(Entity::null()), None);
    assert_eq!(cx.tree.len(), 4);
}

#[test]
fn remove_deletes_subtree_everywhere() {
    let (mut cx, a, b, c) = family();
    cx.insert_view(b, Plain).unwrap();
    cx.insert_view(c, Plain).unwrap();
    cx.add_model(c, 5, Value::Number(1));
    cx.observe(COUNT, c);
    cx.observe(COUNT, a);
    cx.observe(LABEL, b);
    cx.cache.set_width(b, 10);
    assert_eq!(cx.remove(b), Ok(()));
    assert_eq!(cx.tree.entities(), vec![Entity::root(), a]);
    for gone in [b, c] {
        assert!(!cx.tree.contains_entity(gone));
        assert!(!cx.entity_manager.is_alive(gone));
        assert!(!cx.cache.has(gone));
        assert_eq!(cx.cache.get_row(gone), CacheRow::new());
        assert!(!cx.style.has(gone));
        assert!(!cx.views.contains_key(gone));
        assert!(!cx.data.contains_key(gone));
        for lens in cx.lenses.iter() {
            assert!(!lens.observers.contains(&gone));
        }
    }
    assert!(cx.lenses[0].observers.contains(&a));
    assert!(cx.cache.has(a));
    assert!(cx.entity_manager.is_alive(a));
}

#[test]
fn context_remove_fails_for_root_and_absent() {
    let (mut cx, _a, b, _c) = family();
    assert_eq!(cx.remove(Entity::root()), Err(TreeError::IsRoot));
    assert_eq!(cx.remove(Entity::new(50, 0)), Err(TreeError::NotFound));
    cx.remove(b).unwrap();
    assert_eq!(cx.remove(b), Err(TreeError::NotFound));
    assert_eq!(cx.tree.len(), 2);
}

#[test]
fn stale_handle_is_absent_after_slot_reuse() {
    let (mut cx, a, b, c) = family();
    cx.cache.set_width(c, 33);
    cx.remove(b).unwrap();
    let fresh = cx.add_entity(a).unwrap();
    let fresh2 = cx.add_entity(a).unwrap();
    // the slots of b and c are in use again, under another generation
    let reused: Vec<u32> = vec![fresh.index(), fresh2.index()];
    assert!(reused.contains(&b.index()));
    assert!(reused.contains(&c.index()));
    assert!(fresh != b && fresh != c && fresh2 != b && fresh2 != c);
    for stale in [b, c] {
        assert!(!cx.tree.contains_entity(stale));
        assert_eq!(cx.tree.get_parent(stale), None);
        assert!(cx.tree.ancestors(stale).is_empty());
        assert!(!cx.entity_manager.is_alive(stale));
        assert!(!cx.cache.has(stale));
        assert_eq!(cx.cache.get_width(stale), 0);
        assert!(!cx.style.has(stale));
        assert_eq!(cx.style.get_resolved(stale), Appearance::new());
        assert_eq!(cx.remove(stale), Err(TreeError::NotFound));
    }
    assert_eq!(cx.cache.get_row(fresh), CacheRow::new());
    assert_eq!(cx.cache.get_row(fresh2), CacheRow::new());
}

#[test]
fn data_finds_the_nearest_store() {
    let (mut cx, a, b, c) = family();
    cx.add_model(a, 1, Value::Number(10));
    cx.add_model(a, 2, Value::Text("far".to_string()));
    cx.add_model(b, 2, Value::Text("near".to_string()));
    cx.current = c;
    assert_eq!(cx.data(1), Some(&Value::Number(10)));
    assert_eq!(cx.data(2), Some(&Value::Text("near".to_string())));
    assert_eq!(cx.data(3), None);
    assert_eq!(cx.find_data(2), Some((b, 0)));
    assert_eq!(cx.find_data(1), Some((a, 0)));
    cx.current = a;
    assert_eq!(cx.data(2), Some(&Value::Text("far".to_string())));
    assert_eq!(cx.find_data(2), Some((a, 1)));
    cx.current = Entity::root();
    assert_eq!(cx.data(1), None);
}

#[test]
fn data_includes_the_current_entity() {
    let (mut cx, _a, b, c) = family();
    cx.add_model(c, 4, Value::Number(1));
    cx.add_model(b, 4, Value::Number(2));
    cx.current = c;
    assert_eq!(cx.data(4), Some(&Value::Number(1)));
}

#[test]
fn data_of_absent_current_is_none() {
    let (mut cx, a, _b, _c) = family();
    cx.add_model(a, 1, Value::Number(10));
    cx.current = Entity::new(90, 0);
    assert_eq!(cx.data(1), None);
    assert!(cx.data_mut(1).is_none());
    cx.current = Entity::null();
    assert_eq!(cx.data(1), None);
}

#[test]
fn data_mut_changes_the_nearest_store() {
    let (mut cx, a, b, c) = family();
    cx.add_model(a, 2, Value::Number(1));
    cx.add_model(b, 2, Value::Number(2));
    cx.current = c;
    *cx.data_mut(2).unwrap() = Value::Number(20);
    assert_eq!(cx.data.get(b).unwrap()[0].model, Value::Number(20));
    assert_eq!(cx.data.get(a).unwrap()[0].model, Value::Number(1));
    assert!(cx.data_mut(9).is_none());
}

#[test]
fn add_model_files_one_model_per_tag() {
    let (mut cx, a, _b, _c) = family();
    assert!(cx.add_model(a, 1, Value::Number(1)));
    assert!(cx.add_model(a, 2, Value::Number(5)));
    assert!(cx.add_model(a, 1, Value::Number(2)));
    assert!(!cx.add_model(Entity::null(), 1, Value::Number(3)));
    assert!(!cx.add_model(Entity::new(60, 0), 1, Value::Number(3)));
    let models = cx.data.get(a).unwrap();
    assert_eq!(models.len(), 2);
    assert_eq!((models[0].tag, models[1].tag), (1, 2));
    // a model filed under a tag that is taken replaces the one that was there
    cx.current = a;
    assert_eq!(cx.data(1), Some(&Value::Number(2)));
    assert_eq!(cx.data(2), Some(&Value::Number(5)));
}

#[test]
fn add_font_mem_registers_once() {
    let mut cx: Cx = Context::new();
    assert!(cx.add_font_mem("roboto", &[1, 2, 3]));
    assert!(!cx.add_font_mem("roboto", &[9]));
    assert!(cx.add_font_mem("icons", &[]));
    assert_eq!(cx.resource_manager.fonts.len(), 2);
    assert_eq!(cx.resource_manager.fonts[0].name, "roboto");
    assert!(matches!(&cx.resource_manager.fonts[0].font, FontOrId::Font(bytes) if bytes == &vec![1, 2, 3]));
    assert!(cx.resource_manager.contains_font("icons"));
    assert!(!cx.resource_manager.contains_font("emoji"));
    assert_eq!(cx.resource_manager.next_pending_font(), Some(0));
}

#[test]
fn resource_manager_starts_empty() {
    let resources = ResourceManager::new();
    assert!(resources.fonts.is_empty());
    assert!(resources.themes.is_empty());
    assert!(resources.stylesheets.is_empty());
    assert_eq!(resources.next_pending_font(), None);
}

#[test]
fn set_default_font_names_the_font() {
    let mut cx: Cx = Context::new();
    cx.set_default_font("roboto");
    assert_eq!(cx.style.get_default_font(), "roboto");
}

fn some_rule(opacity: u8) -> Rule {
    Rule {
        selector: Selector { element: None, classes: vec![], pseudo: PseudoClasses::none() },
        properties: vec![Property::Opacity(opacity)],
    }
}

#[test]
fn reload_without_themes_does_nothing() {
    let (mut cx, a, _b, _c) = family();
    cx.add_rules(vec![some_rule(3)]);
    cx.style.restyle(a, PseudoClasses::none());
    cx.style.set_needs_restyle(false);
    assert_eq!(cx.reload_styles(&vec![]), None);
    assert_eq!(cx.style.get_resolved(a).opacity, 3);
    assert!(!cx.style.needs_restyle());
}

#[test]
fn add_theme_returns_themes_then_sheets() {
    let (mut cx, a, _b, _c) = family();
    cx.add_rules(vec![some_rule(3)]);
    cx.style.restyle(a, PseudoClasses::none());
    let text = cx.add_theme("a{}", &vec![]);
    assert_eq!(text, "a{}");
    cx.add_stylesheet("one.css", vec![some_rule(7)]);
    let text = cx.add_theme("b{}", &vec!["c{}".to_string()]);
    assert_eq!(text, "a{}b{}c{}");
    assert_eq!(cx.resource_manager.themes, vec!["a{}".to_string(), "b{}".to_string()]);
    assert_eq!(cx.resource_manager.stylesheets, vec!["one.css".to_string()]);
    // rules and what was resolved are gone, everything is asked for
    assert_eq!(cx.style.get_resolved(a), Appearance::new());
    cx.style.restyle(a, PseudoClasses::none());
    assert_eq!(cx.style.get_resolved(a).opacity, 255);
    assert!(cx.style.needs_restyle() && cx.style.needs_relayout() && cx.style.needs_redraw());
    let text = cx.reload_styles(&vec!["d{}".to_string(), "e{}".to_string()]).unwrap();
    assert_eq!(text, "a{}b{}d{}e{}");
}

#[test]
fn add_rules_keeps_the_order() {
    let (mut cx, a, _b, _c) = family();
    cx.add_rules(vec![some_rule(1), some_rule(2)]);
    cx.add_rules(vec![some_rule(3), some_rule(4), some_rule(5)]);
    cx.style.restyle(a, PseudoClasses::none());
    assert_eq!(cx.style.get_resolved(a).opacity, 5);
    cx.add_stylesheet("x.css", vec![some_rule(6), some_rule(9)]);
    cx.style.restyle(a, PseudoClasses::none());
    assert_eq!(cx.style.get_resolved(a).opacity, 9);
}

#[test]
fn lens_reports_change_once() {
    let mut lens: LensState<Value> = LensState::new(COUNT);
    let model = Value::Counter { count: 1, label: "x".to_string() };
    assert!(lens.update(&model));
    assert_eq!(lens.previous, Some(Value::Number(1)));
    assert!(!lens.update(&model));
    assert!(!lens.update(&model));
    let model = Value::Counter { count: 2, label: "x".to_string() };
    assert!(lens.update(&model));
    assert!(!lens.update(&model));
    assert_eq!(lens.previous, Some(Value::Number(2)));
    // a model that the lens does not read leaves it alone
    assert!(!lens.update(&Value::Number(9)));
    assert_eq!(lens.previous, Some(Value::Number(2)));
}

#[test]
fn lens_observe_decides_by_sameness() {
    let mut lens: LensState<Value> = LensState::new(LABEL);
    assert!(lens.observe(Value::Number(1), false));
    assert_eq!(lens.previous, Some(Value::Number(1)));
    assert!(!lens.observe(Value::Number(2), true));
    assert_eq!(lens.previous, Some(Value::Number(1)));
}

#[test]
fn observers_are_listed_once() {
    let mut lens: LensState<Value> = LensState::new(COUNT);
    let a = Entity::new(1, 0);
    let b = Entity::new(2, 0);
    lens.add_observer(a);
    lens.add_observer(b);
    lens.add_observer(a);
    assert_eq!(lens.observers, vec![a, b]);
    lens.remove_observer(a);
    assert_eq!(lens.observers, vec![b]);
    lens.remove_observers(&vec![a, b]);
    assert!(lens.observers.is_empty());
    let mut acc = vec![a];
    merge_observers(&mut acc, &vec![b, a, b]);
    assert_eq!(acc, vec![a, b]);
}

#[test]
fn unchanged_projection_rebuilds_nobody() {
    let (mut cx, a, b, c) = family();
    cx.add_model(a, 1, Value::Counter { count: 0, label: "l".to_string() });
    cx.observe(COUNT, b);
    cx.observe(LABEL, c);
    let first = update_lenses(&mut cx);
    assert_eq!(first, vec![b, c]);
    let second = update_lenses(&mut cx);
    assert!(second.is_empty());
    cx.current = a;
    *cx.data_mut(1).unwrap() = Value::Counter { count: 1, label: "l".to_string() };
    let third = update_lenses(&mut cx);
    assert_eq!(third, vec![b]);
    assert!(update_lenses(&mut cx).is_empty());
}

#[test]
fn observer_of_two_changed_lenses_is_rebuilt_once() {
    let (mut cx, a, b, _c) = family();
    cx.add_model(a, 1, Value::Counter { count: 0, label: "l".to_string() });
    cx.observe(COUNT, b);
    cx.observe(LABEL, b);
    cx.observe(LABEL, a);
    assert_eq!(update_lenses(&mut cx), vec![b, a]);
}

#[test]
fn geometry_change_is_reported_once() {
    let (mut cx, a, b, _c) = family();
    cx.cache.set_width(a, 10);
    cx.cache.set_posy(b, 4);
    cx.cache.set_height(b, 2);
    geometry_changed(&mut cx);
    assert_eq!(cx.event_queue.len(), 2);
    assert_eq!(cx.event_queue[0].target, a);
    assert_eq!(cx.event_queue[0].propagation, Propagation::Up);
    assert!(matches!(
        cx.event_queue[0].message,
        Message::Window(WindowEvent::GeometryChanged(GeometryChanged {
            posx: false,
            posy: false,
            width: true,
            height: false
        }))
    ));
    assert_eq!(cx.event_queue[1].target, b);
    assert!(matches!(
        cx.event_queue[1].message,
        Message::Window(WindowEvent::GeometryChanged(GeometryChanged {
            posx: false,
            posy: true,
            width: false,
            height: true
        }))
    ));
    assert_eq!(cx.cache.get_previous(a), BoundingBox { x: 0, y: 0, w: 10, h: 0 });
    geometry_changed(&mut cx);
    assert_eq!(cx.event_queue.len(), 2);
}

#[test]
fn compare_bounds_names_the_parts() {
    let now = BoundingBox { x: 1, y: 2, w: 3, h: 4 };
    let before = BoundingBox { x: 1, y: 0, w: 3, h: 5 };
    let g = compare_bounds(now, before);
    assert_eq!(g, GeometryChanged { posx: false, posy: true, width: false, height: true });
    assert!(g.is_any());
    assert!(!compare_bounds(now, now).is_any());
}

#[test]
fn inline_width_resolves_to_pixels() {
    let (mut cx, a, _b, _c) = family();
    cx.style.set_property(a, Property::Width(Units::Pixels(100)));
    cx.style.restyle(a, PseudoClasses::none());
    assert_eq!(cx.style.get_resolved(a).width, Units::Pixels(100));
}

#[test]
fn check_accepts_what_the_operations_leave() {
    let (mut cx, a, b, c) = family();
    assert!(cx.check());
    cx.insert_view(b, Plain).unwrap();
    cx.add_model(c, 5, Value::Number(1));
    cx.observe(COUNT, c);
    cx.observe(LABEL, a);
    cx.cache.set_width(a, 4);
    cx.style.set_property(a, Property::Opacity(3));
    assert!(cx.check());
    cx.remove(b).unwrap();
    assert!(cx.check());
    let d = cx.add_entity(a).unwrap();
    cx.insert_view(d, Plain).unwrap();
    assert!(cx.check());
    assert!(cx.entity_manager.check());
    assert!(cx.tree.check());
    assert!(cx.cache.check());
    assert!(cx.style.check());
    assert!(cx.views.check());
}

#[test]
fn check_rejects_a_tree_entity_without_cache_row() {
    let (mut cx, a, _b, _c) = family();
    cx.cache.remove(a);
    assert!(!cx.check());
}

#[test]
fn check_rejects_a_cache_row_without_tree_entity() {
    let (mut cx, _a, _b, _c) = family();
    cx.cache.add(Entity::new(40, 0)).unwrap();
    assert!(!cx.check());
}

#[test]
fn check_rejects_rows_of_dead_entities() {
    let (mut cx, _a, _b, _c) = family();
    cx.views.insert(Entity::new(40, 0), Plain).unwrap();
    assert!(!cx.check());
    let (mut cx, _a, _b, _c) = family();
    cx.style.add(Entity::new(41, 3)).unwrap();
    assert!(!cx.check());
    let (mut cx, _a, _b, _c) = family();
    cx.data.insert(Entity::new(1, 9), vec![]).unwrap();
    assert!(!cx.check());
}

#[test]
fn check_rejects_a_tree_entity_that_is_not_live() {
    let (mut cx, _a, _b, c) = family();
    cx.entity_manager.destroy(c);
    assert!(!cx.check());
    let (mut cx, a, _b, _c) = family();
    cx.tree.add(Entity::new(30, 0), a).unwrap();
    assert!(!cx.check());
}

#[test]
fn check_rejects_lenses_in_disorder() {
    let (mut cx, a, _b, _c) = family();
    cx.observe(COUNT, a);
    cx.lenses.push(LensState::new(COUNT));
    assert!(!cx.check());
    let (mut cx, a, _b, _c) = family();
    cx.observe(COUNT, a);
    cx.lenses[0].observers.push(a);
    assert!(!cx.lenses[0].check());
    assert!(!cx.check());
}

#[test]
fn insert_view_fails_for_an_entity_that_is_not_live() {
    let (mut cx, _a, b, _c) = family();
    assert!(cx.insert_view(Entity::new(40, 0), Plain).is_err());
    assert!(cx.insert_view(Entity::null(), Plain).is_err());
    cx.remove(b).unwrap();
    assert!(cx.insert_view(b, Plain).is_err());
    assert!(!cx.views.contains_key(b));
    assert!(cx.check());
}

#[test]
fn add_entity_leaves_other_handles_as_they_are() {
    let (mut cx, a, b, c) = family();
    cx.remove(c).unwrap();
    let fresh = cx.add_entity(a).unwrap();
    // the slot is used again, under a handle of its own
    assert_eq!(fresh.index(), c.index());
    assert_ne!(fresh, c);
    assert!(!cx.entity_manager.is_alive(c));
    assert!(!cx.style.has(c));
    assert!(!cx.cache.has(c));
    assert!(!cx.tree.contains_entity(c));
    assert!(cx.entity_manager.is_alive(a) && cx.entity_manager.is_alive(b));
    assert!(cx.style.has(a) && cx.style.has(b) && cx.style.has(fresh));
    assert_eq!(cx.tree.children(a), vec![b, fresh]);
    assert!(cx.check());
}

#[test]
fn remove_keeps_what_other_entities_have() {
    let (mut cx, a, b, _c) = family();
    let side = cx.add_entity(Entity::root()).unwrap();
    cx.insert_view(side, Plain).unwrap();
    assert!(cx.add_model(side, COUNT, Value::Number(4)));
    assert!(cx.add_model(a, COUNT, Value::Number(5)));
    cx.style.set_property(side, Property::Width(Units::Pixels(12)));
    cx.remove(b).unwrap();
    assert!(cx.views.contains_key(side));
    assert_eq!(cx.data.get(side).unwrap()[0].model, Value::Number(4));
    assert_eq!(cx.data.get(a).unwrap()[0].model, Value::Number(5));
    cx.style.restyle(side, PseudoClasses::none());
    assert_eq!(cx.style.get_resolved(side).width, Units::Pixels(12));
    assert!(cx.check());
}
