use vizia::binding::Data;
use vizia::cache::{BoundingBox, Display, Visibility};
use vizia::context::{Context, Model, ViewHandler};
use vizia::entity::Entity;
use vizia::events::event::{Event, Message, WindowEvent};
use vizia::hover_system::{apply_hover, hit_test};
use vizia::style::{
    Appearance, Color, Property, PseudoClasses, Rule, Selector, Style, Units,
};
use vizia::style_system::{apply_clipping, apply_inherited, apply_styles, intersect};

#[derive(Debug)]
struct Nothing;

impl Data for Nothing {
    fn project(&self, _lens: u64) -> Option<Self> {
        None
    }

    fn same(&self, _other: &Self) -> bool {
        true
    }
}

impl Model<Nothing> for Nothing {
    fn event(&mut self, _cx: &mut Context<Nothing, Self>, _event: &mut Event<Self>) {}
}

impl ViewHandler<Nothing> for Nothing {
    fn event(&mut self, _cx: &mut Context<Self, Nothing>, _event: &mut Event<Nothing>) {}

    fn body(&mut self, _cx: &mut Context<Self, Nothing>) {}
}

type Cx = Context<Nothing, Nothing>;

fn everything() -> Selector {
    Selector { element: None, classes: vec![], pseudo: PseudoClasses::none() }
}

fn class(c: u32) -> Selector {
    Selector { element: None, classes: vec![c], pseudo: PseudoClasses::none() }
}

fn rule(selector: Selector, properties: Vec<Property>) -> Rule {
    Rule { selector, properties }
}

fn e(index: u32) -> Entity {
    Entity::new(index, 0)
}

#[test]
fn selector_matches_element_classes_and_states() {
    let s = Selector {
        element: Some(3),
        classes: vec![10, 11],
        pseudo: PseudoClasses { hover: true, active: false, focus: false, checked: false },
    };
    let hover = PseudoClasses { hover: true, active: true, focus: false, checked: false };
    assert!(s.is_match(Some(3), &vec![11, 12, 10], hover));
    assert!(!s.is_match(Some(4), &vec![11, 12, 10], hover));
    assert!(!s.is_match(None, &vec![11, 12, 10], hover));
    assert!(!s.is_match(Some(3), &vec![11], hover));
    assert!(!s.is_match(Some(3), &vec![11, 10], PseudoClasses::none()));
    assert!(everything().is_match(None, &vec![], PseudoClasses::none()));
}

#[test]
fn later_rule_wins() {
    let mut style = Style::new();
    style.add(e(1)).unwrap();
    style.add_rule(rule(everything(), vec![Property::Opacity(10), Property::ZOrder(1)]));
    style.add_rule(rule(everything(), vec![Property::Opacity(20)]));
    let changed = style.restyle(e(1), PseudoClasses::none());
    assert_eq!(changed, (false, true));
    let a = style.get_resolved(e(1));
    assert_eq!(a.opacity, 20);
    assert_eq!(a.z_order, Some(1));
    assert_eq!(a.width, Units::Auto);
}

#[test]
fn unmatched_rule_is_skipped_and_inline_wins() {
    let mut style = Style::new();
    style.add(e(1)).unwrap();
    style.add_class(e(1), 5);
    style.add_rule(rule(class(5), vec![Property::Width(Units::Pixels(30))]));
    style.add_rule(rule(class(6), vec![Property::Width(Units::Pixels(60))]));
    style.restyle(e(1), PseudoClasses::none());
    assert_eq!(style.get_resolved(e(1)).width, Units::Pixels(30));
    style.set_property(e(1), Property::Width(Units::Percentage(50)));
    let changed = style.restyle(e(1), PseudoClasses::none());
    assert_eq!(changed, (true, false));
    assert_eq!(style.get_resolved(e(1)).width, Units::Percentage(50));
    style.set_property(e(1), Property::Width(Units::Stretch(1)));
    style.restyle(e(1), PseudoClasses::none());
    assert_eq!(style.get_resolved(e(1)).width, Units::Stretch(1));
}

#[test]
fn states_select_rules() {
    let mut style = Style::new();
    style.add(e(1)).unwrap();
    let hovered = Selector {
        element: None,
        classes: vec![],
        pseudo: PseudoClasses { hover: true, active: false, focus: false, checked: false },
    };
    let checked = Selector {
        element: None,
        classes: vec![],
        pseudo: PseudoClasses { hover: false, active: false, focus: false, checked: true },
    };
    style.add_rule(rule(hovered, vec![Property::BackgroundColor(Color::white())]));
    style.add_rule(rule(checked, vec![Property::Visibility(Visibility::Invisible)]));
    style.restyle(e(1), PseudoClasses::none());
    assert_eq!(style.get_resolved(e(1)), Appearance::new());
    let hover = PseudoClasses { hover: true, active: false, focus: false, checked: false };
    assert_eq!(style.restyle(e(1), hover), (false, true));
    assert_eq!(style.get_resolved(e(1)).background_color, Color::white());
    assert_eq!(style.get_resolved(e(1)).visibility, Visibility::Visible);
    style.set_checked(e(1), true);
    assert!(style.is_checked(e(1)));
    style.restyle(e(1), PseudoClasses::none());
    assert_eq!(style.get_resolved(e(1)).visibility, Visibility::Invisible);
    assert_eq!(style.get_resolved(e(1)).background_color, Color::transparent());
}

#[test]
fn style_changes_ask_for_restyle() {
    let mut style = Style::new();
    assert!(!style.needs_restyle() && !style.needs_relayout() && !style.needs_redraw());
    style.add(e(1)).unwrap();
    assert!(style.needs_restyle());
    style.set_needs_restyle(false);
    style.set_property(e(2), Property::Opacity(1));
    assert!(!style.needs_restyle());
    style.set_property(e(1), Property::Opacity(1));
    assert!(style.needs_restyle());
    style.set_needs_restyle(false);
    style.add_rule(rule(everything(), vec![]));
    assert!(style.needs_restyle());
    assert!(!style.needs_relayout());
}

#[test]
fn reload_clears_resolved_state_and_sets_all_flags() {
    let mut style = Style::new();
    style.add(e(1)).unwrap();
    style.add_rule(rule(everything(), vec![Property::Opacity(9)]));
    style.set_property(e(1), Property::ZOrder(4));
    style.restyle(e(1), PseudoClasses::none());
    style.set_needs_restyle(false);
    assert_eq!(style.get_resolved(e(1)).opacity, 9);
    style.set_default_font("roboto");
    style.reload(vec![rule(everything(), vec![Property::Opacity(80)])]);
    assert_eq!(style.get_resolved(e(1)), Appearance::new());
    assert!(style.needs_restyle() && style.needs_relayout() && style.needs_redraw());
    assert_eq!(style.get_default_font(), "roboto");
    style.restyle(e(1), PseudoClasses::none());
    assert_eq!(style.get_resolved(e(1)).opacity, 80);
    assert_eq!(style.get_resolved(e(1)).z_order, Some(4));
}

#[test]
fn style_of_absent_entity_is_default() {
    let mut style = Style::new();
    assert_eq!(style.get_resolved(e(3)), Appearance::new());
    assert_eq!(style.restyle(e(3), PseudoClasses::none()), (false, false));
    assert!(!style.has(e(3)));
    style.add(e(3)).unwrap();
    assert!(style.remove(e(3)));
    assert!(!style.remove(e(3)));
}

fn family() -> (Cx, Entity, Entity, Entity) {
    let mut cx: Cx = Context::new();
    let a = cx.add_entity(Entity::root()).unwrap();
    let b = cx.add_entity(a).unwrap();
    let c = cx.add_entity(b).unwrap();
    (cx, a, b, c)
}

#[test]
fn apply_styles_runs_only_when_asked() {
    let (mut cx, a, _b, _c) = family();
    cx.style.set_property(a, Property::Width(Units::Pixels(10)));
    cx.style.set_needs_restyle(false);
    apply_styles(&mut cx);
    assert_eq!(cx.style.get_resolved(a).width, Units::Auto);
    assert!(!cx.style.needs_relayout());
    cx.style.set_needs_restyle(true);
    apply_styles(&mut cx);
    assert_eq!(cx.style.get_resolved(a).width, Units::Pixels(10));
    assert!(!cx.style.needs_restyle());
    assert!(cx.style.needs_relayout());
    assert!(!cx.style.needs_redraw());
}

#[test]
fn paint_change_asks_for_redraw_only() {
    let (mut cx, a, _b, _c) = family();
    cx.style.set_property(a, Property::BackgroundColor(Color::rgba(1, 2, 3, 4)));
    apply_styles(&mut cx);
    assert!(!cx.style.needs_restyle());
    assert!(!cx.style.needs_relayout());
    assert!(cx.style.needs_redraw());
}

#[test]
fn restyle_without_change_sets_no_flag() {
    let (mut cx, _a, _b, _c) = family();
    apply_styles(&mut cx);
    assert!(!cx.style.needs_restyle());
    assert!(!cx.style.needs_relayout());
    assert!(!cx.style.needs_redraw());
}

#[test]
fn hover_state_comes_from_the_context() {
    let (mut cx, a, b, _c) = family();
    let hovered = Selector {
        element: None,
        classes: vec![],
        pseudo: PseudoClasses { hover: true, active: false, focus: false, checked: false },
    };
    cx.style.add_rule(rule(hovered, vec![Property::Opacity(100)]));
    cx.hovered = b;
    apply_styles(&mut cx);
    assert_eq!(cx.style.get_resolved(b).opacity, 100);
    assert_eq!(cx.style.get_resolved(a).opacity, 255);
}

#[test]
fn descendant_cannot_undo_invisible_ancestor() {
    let (mut cx, a, b, c) = family();
    cx.style.set_property(a, Property::Visibility(Visibility::Invisible));
    cx.style.set_property(c, Property::Visibility(Visibility::Visible));
    apply_styles(&mut cx);
    apply_inherited(&mut cx);
    assert_eq!(cx.cache.get_visibility(Entity::root()), Visibility::Visible);
    assert_eq!(cx.cache.get_visibility(a), Visibility::Invisible);
    assert_eq!(cx.cache.get_visibility(b), Visibility::Invisible);
    assert_eq!(cx.cache.get_visibility(c), Visibility::Invisible);
    assert_eq!(cx.cache.get_display(c), Display::Shown);
}

#[test]
fn display_gone_hides_the_subtree() {
    let (mut cx, a, b, c) = family();
    cx.style.set_property(b, Property::Display(Display::Gone));
    apply_styles(&mut cx);
    apply_inherited(&mut cx);
    assert_eq!(cx.cache.get_display(a), Display::Shown);
    assert_eq!(cx.cache.get_display(b), Display::Gone);
    assert_eq!(cx.cache.get_display(c), Display::Gone);
    assert_eq!(cx.cache.get_visibility(a), Visibility::Visible);
    assert_eq!(cx.cache.get_visibility(c), Visibility::Invisible);
}

#[test]
fn z_order_is_inherited_unless_declared() {
    let (mut cx, a, b, c) = family();
    cx.style.set_property(a, Property::ZOrder(5));
    cx.style.set_property(c, Property::ZOrder(-2));
    apply_styles(&mut cx);
    apply_inherited(&mut cx);
    assert_eq!(cx.cache.get_z_index(Entity::root()), 0);
    assert_eq!(cx.cache.get_z_index(a), 5);
    assert_eq!(cx.cache.get_z_index(b), 5);
    assert_eq!(cx.cache.get_z_index(c), -2);
}

#[test]
fn opacity_is_scaled_by_the_parent() {
    let (mut cx, a, b, c) = family();
    cx.style.set_property(a, Property::Opacity(128));
    cx.style.set_property(b, Property::Opacity(128));
    apply_styles(&mut cx);
    apply_inherited(&mut cx);
    assert_eq!(cx.cache.get_opacity(a), 128);
    assert_eq!(cx.cache.get_opacity(b), 64);
    assert_eq!(cx.cache.get_opacity(c), 64);
}

#[test]
fn intersect_overlapping_and_disjoint() {
    let a = BoundingBox { x: 0, y: 0, w: 10, h: 10 };
    let b = BoundingBox { x: 5, y: 2, w: 10, h: 3 };
    assert_eq!(intersect(a, b), BoundingBox { x: 5, y: 2, w: 5, h: 3 });
    assert_eq!(intersect(b, a), BoundingBox { x: 5, y: 2, w: 5, h: 3 });
    let far = BoundingBox { x: 20, y: 20, w: 5, h: 5 };
    assert_eq!(intersect(a, far), BoundingBox { x: 20, y: 20, w: 0, h: 0 });
    let huge = BoundingBox { x: i32::MIN, y: 0, w: i32::MAX, h: i32::MAX };
    assert_eq!(
        intersect(huge, huge),
        BoundingBox { x: i32::MIN, y: 0, w: i32::MAX, h: i32::MAX }
    );
}

#[test]
fn clip_is_own_bounds_within_parent_clip() {
    let (mut cx, a, b, c) = family();
    cx.cache.set_clip_region(a, BoundingBox { x: 0, y: 0, w: 100, h: 100 });
    cx.cache.set_posx(b, 50);
    cx.cache.set_width(b, 100);
    cx.cache.set_height(b, 40);
    cx.cache.set_posx(c, 60);
    cx.cache.set_posy(c, 30);
    cx.cache.set_width(c, 10);
    cx.cache.set_height(c, 30);
    apply_clipping(&mut cx);
    // the window keeps the clip it was given
    assert_eq!(cx.cache.get_clip_region(a), BoundingBox { x: 0, y: 0, w: 100, h: 100 });
    assert_eq!(cx.cache.get_clip_region(b), BoundingBox { x: 50, y: 0, w: 50, h: 40 });
    assert_eq!(cx.cache.get_clip_region(c), BoundingBox { x: 60, y: 30, w: 10, h: 10 });
}

fn place(cx: &mut Cx, entity: Entity, x: i32, y: i32, w: i32, h: i32) {
    cx.cache.set_posx(entity, x);
    cx.cache.set_posy(entity, y);
    cx.cache.set_width(entity, w);
    cx.cache.set_height(entity, h);
    cx.cache.set_clip_region(entity, BoundingBox { x, y, w, h });
}

#[test]
fn hover_finds_the_topmost_entity_under_the_pointer() {
    let (mut cx, a, b, c) = family();
    place(&mut cx, a, 0, 0, 100, 100);
    place(&mut cx, b, 10, 10, 50, 50);
    place(&mut cx, c, 20, 20, 10, 10);
    cx.mouse.cursorx = 25;
    cx.mouse.cursory = 25;
    apply_hover(&mut cx);
    assert_eq!(cx.hovered, c);
    // the new entity hears of the arrival first, then the old one of the departure
    assert_eq!(cx.event_queue.len(), 2);
    assert!(matches!(cx.event_queue[0].message, Message::Window(WindowEvent::MouseEnter)));
    assert_eq!(cx.event_queue[0].target, c);
    assert!(matches!(cx.event_queue[1].message, Message::Window(WindowEvent::MouseLeave)));
    assert_eq!(cx.event_queue[1].target, Entity::root());
    assert!(cx.style.needs_restyle());
    assert!(cx.style.needs_redraw());
    cx.mouse.cursorx = 40;
    apply_hover(&mut cx);
    assert_eq!(cx.hovered, b);
    cx.cache.set_z_index(a, 3);
    apply_hover(&mut cx);
    assert_eq!(cx.hovered, a);
    cx.mouse.cursorx = 500;
    apply_hover(&mut cx);
    assert_eq!(cx.hovered, Entity::root());
}

#[test]
fn hover_unchanged_queues_nothing() {
    let (mut cx, a, _b, _c) = family();
    place(&mut cx, a, 0, 0, 100, 100);
    cx.mouse.cursorx = 5;
    cx.mouse.cursory = 5;
    apply_hover(&mut cx);
    let queued = cx.event_queue.len();
    cx.style.set_needs_restyle(false);
    cx.style.set_needs_redraw(false);
    cx.mouse.cursorx = 6;
    apply_hover(&mut cx);
    assert_eq!(cx.hovered, a);
    assert_eq!(cx.event_queue.len(), queued);
    assert!(!cx.style.needs_restyle());
    assert!(!cx.style.needs_redraw());
}

#[test]
fn hit_test_respects_visibility_and_clip() {
    let (mut cx, a, _b, _c) = family();
    place(&mut cx, a, 0, 0, 10, 10);
    assert!(hit_test(&cx.cache.get_row(a), 0, 0));
    assert!(hit_test(&cx.cache.get_row(a), 9, 9));
    assert!(!hit_test(&cx.cache.get_row(a), 10, 9));
    assert!(!hit_test(&cx.cache.get_row(a), -1, 0));
    cx.cache.set_clip_region(a, BoundingBox { x: 0, y: 0, w: 5, h: 5 });
    assert!(!hit_test(&cx.cache.get_row(a), 6, 1));
    cx.cache.set_clip_region(a, BoundingBox { x: 0, y: 0, w: 10, h: 10 });
    cx.cache.set_visibility(a, Visibility::Invisible);
    assert!(!hit_test(&cx.cache.get_row(a), 1, 1));
    cx.cache.set_visibility(a, Visibility::Visible);
    cx.cache.set_opacity(a, 0);
    assert!(!hit_test(&cx.cache.get_row(a), 1, 1));
    cx.cache.set_opacity(a, 1);
    cx.cache.set_hoverable(a, false);
    assert!(!hit_test(&cx.cache.get_row(a), 1, 1));
    cx.cache.set_hoverable(a, true);
    cx.cache.set_display(a, Display::Gone);
    assert!(!hit_test(&cx.cache.get_row(a), 1, 1));
}
