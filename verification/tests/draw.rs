use vizia::binding::Data;
use vizia::cache::{BoundingBox, Display, Transform2D, Visibility, TRANSFORM_ONE};
use vizia::context::{Context, Model, ViewHandler};
use vizia::draw::{draw_list, paint_order};
use vizia::entity::Entity;
use vizia::events::event::Event;
use vizia::style::Property;
use vizia::style_system::{apply_styles, apply_transform, translate};

#[derive(Debug)]
struct Unit;

impl Data for Unit {
    fn project(&self, _lens: u64) -> Option<Self> {
        None
    }

    fn same(&self, _other: &Self) -> bool {
        true
    }
}

impl Model<Unit> for Unit {
    fn event(&mut self, _cx: &mut Context<Unit, Self>, _event: &mut Event<Self>) {}
}

impl ViewHandler<Unit> for Unit {
    fn event(&mut self, _cx: &mut Context<Self, Unit>, _event: &mut Event<Unit>) {}

    fn body(&mut self, _cx: &mut Context<Self, Unit>) {}
}

type Cx = Context<Unit, Unit>;

/// root -> window -> (a -> b, c)
fn scene() -> (Cx, Entity, Entity, Entity, Entity) {
    let mut cx: Cx = Context::new();
    let window = cx.add_entity(Entity::root()).unwrap();
    let a = cx.add_entity(window).unwrap();
    let b = cx.add_entity(a).unwrap();
    let c = cx.add_entity(window).unwrap();
    (cx, window, a, b, c)
}

fn entities(cx: &Cx, window: Entity) -> Vec<Entity> {
    draw_list(cx, window).iter().map(|item| item.entity).collect()
}

#[test]
fn draw_list_is_preorder_without_the_window() {
    let (cx, window, a, b, c) = scene();
    assert_eq!(entities(&cx, window), vec![Entity::root(), a, b, c]);
    assert_eq!(paint_order(&cx, window), vec![0, 2, 3, 4]);
}

#[test]
fn draw_list_sorts_by_stacking_level_and_keeps_ties_in_order() {
    let (mut cx, window, a, b, c) = scene();
    cx.cache.set_z_index(a, 2);
    cx.cache.set_z_index(b, 1);
    cx.cache.set_z_index(c, 1);
    assert_eq!(entities(&cx, window), vec![Entity::root(), b, c, a]);
    cx.cache.set_z_index(Entity::root(), 1);
    assert_eq!(entities(&cx, window), vec![Entity::root(), b, c, a]);
    cx.cache.set_z_index(c, -4);
    assert_eq!(entities(&cx, window), vec![c, Entity::root(), b, a]);
}

#[test]
fn draw_list_skips_what_is_not_painted() {
    let (mut cx, window, a, b, c) = scene();
    cx.cache.set_visibility(a, Visibility::Invisible);
    cx.cache.set_display(b, Display::Gone);
    cx.cache.set_opacity(c, 0);
    assert_eq!(entities(&cx, window), vec![Entity::root()]);
    cx.cache.set_opacity(c, 1);
    assert_eq!(entities(&cx, window), vec![Entity::root(), c]);
}

#[test]
fn draw_item_carries_clip_transform_and_opacity() {
    let (mut cx, window, a, _b, _c) = scene();
    cx.cache.set_clip_region(a, BoundingBox { x: 1, y: 2, w: 3, h: 4 });
    cx.cache.set_opacity(a, 9);
    cx.cache.set_transform(a, Transform2D { a: 1, b: 2, c: 3, d: 4, e: 5, f: 6 });
    let items = draw_list(&cx, window);
    assert_eq!(items[1].entity, a);
    assert_eq!(items[1].clip_region, BoundingBox { x: 1, y: 2, w: 3, h: 4 });
    assert_eq!(items[1].opacity, 9);
    assert_eq!(items[1].transform, Transform2D { a: 1, b: 2, c: 3, d: 4, e: 5, f: 6 });
}

#[test]
fn translate_shifts_by_the_linear_part() {
    let id = Transform2D::identity();
    assert_eq!(
        translate(id, 3, -2),
        Transform2D { a: TRANSFORM_ONE, b: 0, c: 0, d: TRANSFORM_ONE, e: 3 * 65536, f: -2 * 65536 }
    );
    let t = Transform2D { a: 2, b: 3, c: 5, d: 7, e: 11, f: 13 };
    assert_eq!(translate(t, 10, 100), Transform2D { a: 2, b: 3, c: 5, d: 7, e: 531, f: 743 });
    let far = translate(id, i32::MAX, 0);
    assert_eq!(far.e, i32::MAX);
    let back = translate(id, i32::MIN, 0);
    assert_eq!(back.e, i32::MIN);
}

#[test]
fn transform_is_inherited_and_shifted() {
    let (mut cx, window, a, b, c) = scene();
    cx.style.set_property(a, Property::Translate(1, 0));
    cx.style.set_property(b, Property::Translate(0, 2));
    apply_styles(&mut cx);
    cx.cache.set_transform(window, Transform2D { a: 65536, b: 0, c: 0, d: 65536, e: 10, f: 20 });
    cx.cache.set_transform(c, Transform2D { a: 0, b: 0, c: 0, d: 0, e: 0, f: 0 });
    apply_transform(&mut cx);
    assert_eq!(
        cx.cache.get_transform(window),
        Transform2D { a: 65536, b: 0, c: 0, d: 65536, e: 10, f: 20 }
    );
    assert_eq!(
        cx.cache.get_transform(a),
        Transform2D { a: 65536, b: 0, c: 0, d: 65536, e: 65546, f: 20 }
    );
    assert_eq!(
        cx.cache.get_transform(b),
        Transform2D { a: 65536, b: 0, c: 0, d: 65536, e: 65546, f: 131092 }
    );
    assert_eq!(cx.cache.get_transform(c), cx.cache.get_transform(window));
    assert_eq!(cx.cache.get_transform(Entity::root()), Transform2D::identity());
}
