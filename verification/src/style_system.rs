use crate::cache::{BoundingBox, CacheRow, Display, Transform2D, Visibility};
use crate::context::Context;
use crate::entity::Entity;
use crate::style::{PseudoClasses, Style, StyleRow};
use crate::tree::{lemma_last_shallower, lemma_parent, outline_wf, parent_index, Node};
use vstd::prelude::*;

verus! {

/// The states that `e` is in by the pointer and the keyboard: hovered, captured,
/// focused.
pub open spec fn states_of(e: Entity, hovered: Entity, captured: Entity, focused: Entity) -> PseudoClasses {
    PseudoClasses { hover: e == hovered, active: e == captured, focus: e == focused, checked: false }
}

/// What resolution makes of the style of `e`.
pub open spec fn resolution(style: &Style, e: Entity, hovered: Entity, captured: Entity, focused: Entity) -> crate::style::Appearance {
    style.row(e).resolve(
        style.rules(),
        PseudoClasses {
            checked: style.row(e).checked,
            ..states_of(e, hovered, captured, focused)
        },
    )
}

/// Whether resolving the styles of `entities` changes something that decides
/// placement, for at least one of them.
pub open spec fn any_geometry_change(style: &Style, entities: Seq<Entity>, hovered: Entity, captured: Entity, focused: Entity) -> bool
    decreases entities.len(),
{
    if entities.len() == 0 {
        false
    } else {
        let e = entities.last();
        any_geometry_change(style, entities.drop_last(), hovered, captured, focused) || (
        style.contains(e) && resolution(style, e, hovered, captured, focused).geometry_differs(
            style.resolved(e),
        ))
    }
}

/// Whether resolving the styles of `entities` changes something that only decides
/// painting, for at least one of them.
pub open spec fn any_paint_change(style: &Style, entities: Seq<Entity>, hovered: Entity, captured: Entity, focused: Entity) -> bool
    decreases entities.len(),
{
    if entities.len() == 0 {
        false
    } else {
        let e = entities.last();
        any_paint_change(style, entities.drop_last(), hovered, captured, focused) || (
        style.contains(e) && resolution(style, e, hovered, captured, focused).paint_differs(
            style.resolved(e),
        ))
    }
}

/// Resolves the style of every entity of the tree, in pre-order, if styles are
/// asked to be resolved anew; otherwise it does nothing.
///
/// Afterwards styles are no longer asked for. Layout is asked for if and only if it
/// was asked for before or some entity's style changed in something that decides
/// placement, and painting if and only if it was asked for before or some
/// entity's style changed in something that only decides painting.
pub fn apply_styles<V, M>(cx: &mut Context<V, M>)
    requires
        old(cx).wf(),
    ensures
        final(cx).wf(),
        final(cx).same_but_style(old(cx)),
        !old(cx).style.flags().0 ==> final(cx).style == old(cx).style,
        final(cx).style.rules() == old(cx).style.rules(),
        final(cx).style.font() == old(cx).style.font(),
        forall|x: Entity| #[trigger] final(cx).style.contains(x) == old(cx).style.contains(x),
        old(cx).style.flags().0 ==> {
            &&& final(cx).style.flags() == (
                false,
                old(cx).style.flags().1 || any_geometry_change(
                    &old(cx).style,
                    old(cx).tree.preorder(),
                    old(cx).hovered,
                    old(cx).captured,
                    old(cx).focused,
                ),
                old(cx).style.flags().2 || any_paint_change(
                    &old(cx).style,
                    old(cx).tree.preorder(),
                    old(cx).hovered,
                    old(cx).captured,
                    old(cx).focused,
                ),
            )
            &&& forall|x: Entity|
                old(cx).style.contains(x) && old(cx).tree.contains(x) ==> #[trigger] final(cx).style.row(x) == (StyleRow {
                    resolved: resolution(
                        &old(cx).style,
                        x,
                        old(cx).hovered,
                        old(cx).captured,
                        old(cx).focused,
                    ),
                    ..old(cx).style.row(x)
                })
            &&& forall|x: Entity|
                old(cx).style.contains(x) && !old(cx).tree.contains(x) ==> #[trigger] final(cx).style.row(x) == old(cx).style.row(x)
        },
{
    if !cx.style.needs_restyle() {
        return ;
    }
    let entities: Vec<Entity> = cx.tree.entities();
    let ghost before = cx.style;
    let ghost all = entities@;
    let mut geometry: bool = false;
    let mut paint: bool = false;
    let mut i: usize = 0;
    proof {
        assert(all.take(0) =~= Seq::<Entity>::empty());
        assert forall|a: int, b: int| 0 <= a < b < all.len() implies all[a] != all[b] by {
            assert(cx.tree@[a].entity != cx.tree@[b].entity);
        }
    }
    while i < entities.len()
        invariant
            i <= entities.len(),
            entities@ == all,
            all == old(cx).tree.preorder(),
            forall|a: int, b: int| 0 <= a < b < all.len() ==> all[a] != all[b],
            cx.same_but_style(old(cx)),
            old(cx).wf(),
            cx.style.wf(),
            before == old(cx).style,
            cx.style.rules() == before.rules(),
            cx.style.font() == before.font(),
            cx.style.flags() == before.flags(),
            forall|x: Entity| #[trigger] cx.style.contains(x) == before.contains(x),
            forall|x: Entity|
                before.contains(x) && all.take(i as int).contains(x) ==> #[trigger] cx.style.row(x)
                    == (StyleRow {
                    resolved: resolution(&before, x, cx.hovered, cx.captured, cx.focused),
                    ..before.row(x)
                }),
            forall|x: Entity|
                before.contains(x) && !all.take(i as int).contains(x) ==> #[trigger] cx.style.row(x)
                    == before.row(x),
            geometry == any_geometry_change(
                &before,
                all.take(i as int),
                cx.hovered,
                cx.captured,
                cx.focused,
            ),
            paint == any_paint_change(&before, all.take(i as int), cx.hovered, cx.captured, cx.focused),
        decreases entities.len() - i,
    {
        let e: Entity = entities[i];
        let states = PseudoClasses {
            hover: e == cx.hovered,
            active: e == cx.captured,
            focus: e == cx.focused,
            checked: false,
        };
        proof {
            assert(all.take(i + 1).drop_last() =~= all.take(i as int));
            assert(all.take(i + 1).last() == e);
            crate::binding::lemma_push_contains(all.take(i as int), e);
            assert(all.take(i + 1) =~= all.take(i as int).push(e));
            if all.take(i as int).contains(e) {
                let k = choose|k: int| 0 <= k < i && all.take(i as int)[k] == e;
                assert(all[k] != all[i as int]);
            }
        }
        let changed = cx.style.restyle(e, states);
        geometry = geometry || changed.0;
        paint = paint || changed.1;
        i += 1;
    }
    proof {
        assert(all.take(i as int) =~= all);
        assert forall|x: Entity| all.contains(x) == old(cx).tree.contains(x) by {
            old(cx).tree.lemma_subtree_members(x, x);
        }
    }
    cx.style.set_needs_restyle(false);
    if geometry {
        cx.style.set_needs_relayout(true);
    }
    if paint {
        cx.style.set_needs_redraw(true);
    }
}

/// The stacking level of line `i`: the one its style declares, or else the one of
/// its parent; 0 for a root that declares none.
pub open spec fn effective_z(tree: Seq<Node>, style: &Style, i: int) -> int
    decreases i + 1,
{
    if i < 0 || i >= tree.len() {
        0
    } else {
        match style.resolved(tree[i].entity).z_order {
            Some(z) => z as int,
            None => {
                proof {
                    lemma_last_shallower(tree, i, tree[i].depth as int);
                }
                effective_z(tree, style, parent_index(tree, i))
            },
        }
    }
}

/// Whether line `i` is hidden: its own style makes it invisible or takes it out of
/// the display, or its parent is hidden.
pub open spec fn hidden(tree: Seq<Node>, style: &Style, i: int) -> bool
    decreases i + 1,
{
    if i < 0 || i >= tree.len() {
        false
    } else {
        let own = style.resolved(tree[i].entity);
        proof {
            lemma_last_shallower(tree, i, tree[i].depth as int);
        }
        own.visibility == Visibility::Invisible || own.display == Display::Gone || hidden(
            tree,
            style,
            parent_index(tree, i),
        )
    }
}

/// Whether line `i` is out of the display: its own style takes it out, or its
/// parent is out.
pub open spec fn gone(tree: Seq<Node>, style: &Style, i: int) -> bool
    decreases i + 1,
{
    if i < 0 || i >= tree.len() {
        false
    } else {
        proof {
            lemma_last_shallower(tree, i, tree[i].depth as int);
        }
        style.resolved(tree[i].entity).display == Display::Gone || gone(
            tree,
            style,
            parent_index(tree, i),
        )
    }
}

/// The opacity of line `i` on the screen: its own, scaled by that of its parent.
pub open spec fn effective_opacity(tree: Seq<Node>, style: &Style, i: int) -> int
    decreases i + 1,
{
    if i < 0 || i >= tree.len() {
        255
    } else {
        proof {
            lemma_last_shallower(tree, i, tree[i].depth as int);
        }
        (effective_opacity(tree, style, parent_index(tree, i)) * style.resolved(
            tree[i].entity,
        ).opacity) / 255
    }
}

/// An opacity on the screen lies between fully transparent and fully opaque.
pub proof fn lemma_effective_opacity(tree: Seq<Node>, style: &Style, i: int)
    ensures
        0 <= effective_opacity(tree, style, i) <= 255,
    decreases i + 1,
{
    if 0 <= i < tree.len() {
        lemma_last_shallower(tree, i, tree[i].depth as int);
        lemma_effective_opacity(tree, style, parent_index(tree, i));
        let p = effective_opacity(tree, style, parent_index(tree, i));
        let o = style.resolved(tree[i].entity).opacity as int;
        assert(0 <= p * o <= 255 * 255) by (nonlinear_arith)
            requires
                0 <= p <= 255,
                0 <= o <= 255,
        ;
    }
}

/// What the passes that follow style resolution leave in the cache row of line `i`.
pub open spec fn derived_row(tree: Seq<Node>, style: &Style, i: int, row: CacheRow) -> CacheRow {
    CacheRow {
        z_index: effective_z(tree, style, i) as i32,
        visibility: if hidden(tree, style, i) {
            Visibility::Invisible
        } else {
            Visibility::Visible
        },
        display: if gone(tree, style, i) {
            Display::Gone
        } else {
            Display::Shown
        },
        opacity: effective_opacity(tree, style, i) as u8,
        ..row
    }
}

/// Line `i` is hidden exactly if the style of the line itself or of one of the
/// lines above it makes it invisible or takes it out of the display: nothing below
/// can undo it.
pub proof fn lemma_hidden_by_ancestor(tree: Seq<Node>, style: &Style, i: int)
    requires
        outline_wf(tree),
        0 <= i < tree.len(),
    ensures
        hidden(tree, style, i) <==> exists|a: int|
            #[trigger] crate::tree::is_ancestor_line(tree, a, i) && 0 <= a < tree.len() && (
            style.resolved(tree[a].entity).visibility == Visibility::Invisible || style.resolved(
                tree[a].entity,
            ).display == Display::Gone),
    decreases i,
{
    let own = style.resolved(tree[i].entity);
    let mine = own.visibility == Visibility::Invisible || own.display == Display::Gone;
    let marked = |a: int|
        0 <= a < tree.len() && (style.resolved(tree[a].entity).visibility == Visibility::Invisible
            || style.resolved(tree[a].entity).display == Display::Gone);
    if i == 0 {
        assert(parent_index(tree, 0) == -1);
        assert(!hidden(tree, style, -1));
        assert(crate::tree::is_ancestor_line(tree, 0, 0));
        assert forall|a: int| #[trigger]
            crate::tree::is_ancestor_line(tree, a, 0) && marked(a) implies a == 0 by {
            if a != 0 {
                assert(!crate::tree::is_ancestor_line(tree, a, -1));
            }
        }
    } else {
        lemma_parent(tree, i);
        let p = parent_index(tree, i);
        lemma_hidden_by_ancestor(tree, style, p);
        assert(crate::tree::is_ancestor_line(tree, i, i));
        if hidden(tree, style, i) {
            if mine {
                assert(crate::tree::is_ancestor_line(tree, i, i) && marked(i));
            } else {
                let a = choose|a: int| #[trigger]
                    crate::tree::is_ancestor_line(tree, a, p) && marked(a);
                assert(a != i);
                assert(crate::tree::is_ancestor_line(tree, a, i) && marked(a));
            }
        }
        if exists|a: int| #[trigger] crate::tree::is_ancestor_line(tree, a, i) && marked(a) {
            let a = choose|a: int| #[trigger] crate::tree::is_ancestor_line(tree, a, i) && marked(a);
            if a != i {
                assert(crate::tree::is_ancestor_line(tree, a, p) && marked(a));
            }
        }
    }
}

/// Writes into the cache, for every entity of the tree, what follows from the
/// resolved styles along the tree: the stacking level, inherited from the parent
/// where the entity declares none; visibility and display, which an entity cannot
/// have where its parent lacks them; and opacity, scaled by that of the parent.
pub fn apply_inherited<V, M>(cx: &mut Context<V, M>)
    requires
        old(cx).wf(),
    ensures
        final(cx).wf(),
        final(cx).same_but_cache(old(cx)),
        forall|x: Entity| #[trigger] final(cx).cache.contains(x) == old(cx).cache.contains(x),
        forall|x: Entity|
            !old(cx).tree.contains(x) ==> #[trigger] final(cx).cache.row(x) == old(cx).cache.row(x),
        forall|i: int|
            0 <= i < old(cx).tree@.len() ==> #[trigger] final(cx).cache.row(old(cx).tree@[i].entity)
                == derived_row(
                old(cx).tree@,
                &old(cx).style,
                i,
                old(cx).cache.row(old(cx).tree@[i].entity),
            ),
{
    let n: usize = cx.tree.len();
    let ghost tree = cx.tree@;
    let ghost style = cx.style;
    let mut i: usize = 0;
    while i < n
        invariant
            i <= n,
            n == tree.len(),
            cx.same_but_cache(old(cx)),
            old(cx).wf(),
            cx.cache.wf(),
            tree == old(cx).tree@,
            style == old(cx).style,
            forall|x: Entity| #[trigger] cx.cache.contains(x) == old(cx).cache.contains(x),
            forall|x: Entity|
                !old(cx).tree.contains(x) ==> #[trigger] cx.cache.row(x) == old(cx).cache.row(x),
            forall|j: int|
                0 <= j < i ==> #[trigger] cx.cache.row(tree[j].entity) == derived_row(
                    tree,
                    &style,
                    j,
                    old(cx).cache.row(tree[j].entity),
                ),
            forall|j: int|
                i <= j < n ==> #[trigger] cx.cache.row(tree[j].entity) == old(cx).cache.row(
                    tree[j].entity,
                ),
        decreases n - i,
    {
        let e: Entity = cx.tree.entity_at(i);
        let own = cx.style.get_resolved(e);
        let mut z: i32 = 0;
        let mut parent_hidden: bool = false;
        let mut parent_gone: bool = false;
        let mut parent_opacity: u8 = 255;
        proof {
            crate::tree::lemma_line_of_is(tree, i as int);
            lemma_effective_opacity(tree, &style, i as int);
        }
        if i > 0 {
            let p: usize = cx.tree.parent_position(i);
            let parent: Entity = cx.tree.entity_at(p);
            proof {
                crate::tree::lemma_line_of_is(tree, p as int);
                assert(cx.cache.row(tree[p as int].entity) == derived_row(
                    tree,
                    &style,
                    p as int,
                    old(cx).cache.row(tree[p as int].entity),
                ));
                lemma_effective_opacity(tree, &style, p as int);
            }
            z = cx.cache.get_z_index(parent);
            parent_hidden = cx.cache.get_visibility(parent) == Visibility::Invisible;
            parent_gone = cx.cache.get_display(parent) == Display::Gone;
            parent_opacity = cx.cache.get_opacity(parent);
        } else {
            proof {
                assert(parent_index(tree, 0) == -1);
                assert(effective_z(tree, &style, -1) == 0);
                assert(!hidden(tree, &style, -1));
                assert(!gone(tree, &style, -1));
                assert(effective_opacity(tree, &style, -1) == 255);
            }
        }
        match own.z_order {
            Some(declared) => {
                z = declared;
            },
            None => {},
        }
        let is_gone: bool = own.display == Display::Gone || parent_gone;
        let is_hidden: bool = own.visibility == Visibility::Invisible || own.display == Display::Gone
            || parent_hidden;
        let opacity: u8 = ((parent_opacity as u32 * own.opacity as u32) / 255) as u8;
        let ghost mid = cx.cache;
        cx.cache.set_z_index(e, z);
        cx.cache.set_visibility(
            e,
            if is_hidden {
                Visibility::Invisible
            } else {
                Visibility::Visible
            },
        );
        cx.cache.set_display(
            e,
            if is_gone {
                Display::Gone
            } else {
                Display::Shown
            },
        );
        cx.cache.set_opacity(e, opacity);
        proof {
            assert(old(cx).tree.contains(e));
            assert(mid.contains(e));
            assert forall|j: int| 0 <= j < i + 1 implies #[trigger] cx.cache.row(tree[j].entity)
                == derived_row(tree, &style, j, old(cx).cache.row(tree[j].entity)) by {
                if j < i {
                    assert(tree[j].entity != tree[i as int].entity);
                    assert(mid.row(tree[j].entity) == derived_row(
                        tree,
                        &style,
                        j,
                        old(cx).cache.row(tree[j].entity),
                    ));
                }
            }
            assert forall|j: int| i + 1 <= j < n implies #[trigger] cx.cache.row(tree[j].entity)
                == old(cx).cache.row(tree[j].entity) by {
                assert(tree[i as int].entity != tree[j].entity);
                assert(mid.row(tree[j].entity) == old(cx).cache.row(tree[j].entity));
            }
        }
        i += 1;
    }
}

/// The overlap of two rectangles; a rectangle without extent where they do not
/// meet.
pub open spec fn intersection(a: BoundingBox, b: BoundingBox) -> BoundingBox {
    let left = if a.x > b.x {
        a.x as int
    } else {
        b.x as int
    };
    let top = if a.y > b.y {
        a.y as int
    } else {
        b.y as int
    };
    let right = if a.x + a.w < b.x + b.w {
        a.x + a.w
    } else {
        b.x + b.w
    };
    let bottom = if a.y + a.h < b.y + b.h {
        a.y + a.h
    } else {
        b.y + b.h
    };
    BoundingBox {
        x: left as i32,
        y: top as i32,
        w: clamp_extent(right - left) as i32,
        h: clamp_extent(bottom - top) as i32,
    }
}

/// An extent as a rectangle can have it: not negative and not beyond what fits.
pub open spec fn clamp_extent(v: int) -> int {
    if v < 0 {
        0
    } else if v > i32::MAX {
        i32::MAX as int
    } else {
        v
    }
}

/// The overlap of two rectangles.
pub fn intersect(a: BoundingBox, b: BoundingBox) -> (r: BoundingBox)
    ensures
        r == intersection(a, b),
{
    let left: i32 = if a.x > b.x {
        a.x
    } else {
        b.x
    };
    let top: i32 = if a.y > b.y {
        a.y
    } else {
        b.y
    };
    let a_right: i64 = a.x as i64 + a.w as i64;
    let b_right: i64 = b.x as i64 + b.w as i64;
    let a_bottom: i64 = a.y as i64 + a.h as i64;
    let b_bottom: i64 = b.y as i64 + b.h as i64;
    let right: i64 = if a_right < b_right {
        a_right
    } else {
        b_right
    };
    let bottom: i64 = if a_bottom < b_bottom {
        a_bottom
    } else {
        b_bottom
    };
    let w: i64 = right - left as i64;
    let h: i64 = bottom - top as i64;
    BoundingBox { x: left, y: top, w: clamp(w), h: clamp(h) }
}

fn clamp(v: i64) -> (r: i32)
    ensures
        r == clamp_extent(v as int),
{
    if v < 0 {
        0
    } else if v > i32::MAX as i64 {
        i32::MAX
    } else {
        v as i32
    }
}

/// The clip rectangle of line `i`: for the root and for the entities right below
/// it, which stand for windows, the one that `cache` holds; for every other line
/// the overlap of its own bounds with the clip rectangle of its parent.
pub open spec fn effective_clip(tree: Seq<Node>, cache: &crate::cache::CachedData, i: int) -> BoundingBox
    decreases i + 1,
{
    if i < 0 || i >= tree.len() {
        BoundingBox::spec_zero()
    } else if tree[i].depth <= 1 {
        cache.row(tree[i].entity).clip_region
    } else {
        proof {
            lemma_last_shallower(tree, i, tree[i].depth as int);
        }
        intersection(
            cache.row(tree[i].entity).bounds(),
            effective_clip(tree, cache, parent_index(tree, i)),
        )
    }
}

/// The clip rectangles do not depend on the transforms that the cache holds.
pub proof fn lemma_clip_ignores_transform(tree: Seq<Node>, a: &crate::cache::CachedData, b: &crate::cache::CachedData, i: int)
    requires
        forall|j: int|
            0 <= j < tree.len() ==> #[trigger] b.row(tree[j].entity) == (CacheRow {
                transform: b.row(tree[j].entity).transform,
                ..a.row(tree[j].entity)
            }),
    ensures
        effective_clip(tree, b, i) == effective_clip(tree, a, i),
    decreases i + 1,
{
    if 0 <= i < tree.len() {
        assert(b.row(tree[i].entity) == CacheRow {
            transform: b.row(tree[i].entity).transform,
            ..a.row(tree[i].entity)
        });
        if tree[i].depth > 1 {
            lemma_last_shallower(tree, i, tree[i].depth as int);
            lemma_clip_ignores_transform(tree, a, b, parent_index(tree, i));
        }
    }
}

/// Computes the clip rectangle of every entity of the tree from the bounds that
/// the cache holds: what is painted of an entity lies within its own bounds and
/// within what is painted of its parent.
pub fn apply_clipping<V, M>(cx: &mut Context<V, M>)
    requires
        old(cx).wf(),
    ensures
        final(cx).wf(),
        final(cx).same_but_cache(old(cx)),
        forall|x: Entity| #[trigger] final(cx).cache.contains(x) == old(cx).cache.contains(x),
        forall|x: Entity|
            !old(cx).tree.contains(x) ==> #[trigger] final(cx).cache.row(x) == old(cx).cache.row(x),
        forall|i: int|
            0 <= i < old(cx).tree@.len() ==> #[trigger] final(cx).cache.row(old(cx).tree@[i].entity)
                == (CacheRow {
                clip_region: effective_clip(old(cx).tree@, &old(cx).cache, i),
                ..old(cx).cache.row(old(cx).tree@[i].entity)
            }),
{
    let n: usize = cx.tree.len();
    let ghost tree = cx.tree@;
    let ghost before = cx.cache;
    let mut i: usize = 0;
    while i < n
        invariant
            i <= n,
            n == tree.len(),
            cx.same_but_cache(old(cx)),
            old(cx).wf(),
            cx.cache.wf(),
            tree == old(cx).tree@,
            before == old(cx).cache,
            forall|x: Entity| #[trigger] cx.cache.contains(x) == before.contains(x),
            forall|x: Entity| !old(cx).tree.contains(x) ==> #[trigger] cx.cache.row(x) == before.row(x),
            forall|j: int|
                0 <= j < i ==> #[trigger] cx.cache.row(tree[j].entity) == (CacheRow {
                    clip_region: effective_clip(tree, &before, j),
                    ..before.row(tree[j].entity)
                }),
            forall|j: int| i <= j < n ==> #[trigger] cx.cache.row(tree[j].entity) == before.row(tree[j].entity),
        decreases n - i,
    {
        let e: Entity = cx.tree.entity_at(i);
        let depth: usize = cx.tree.depth_at(i);
        let ghost mid = cx.cache;
        proof {
            crate::tree::lemma_line_of_is(tree, i as int);
        }
        if depth > 1 {
            let p: usize = cx.tree.parent_position(i);
            let parent: Entity = cx.tree.entity_at(p);
            proof {
                crate::tree::lemma_line_of_is(tree, p as int);
                assert(cx.cache.row(tree[p as int].entity) == (CacheRow {
                    clip_region: effective_clip(tree, &before, p as int),
                    ..before.row(tree[p as int].entity)
                }));
            }
            let parent_clip = cx.cache.get_clip_region(parent);
            let bounds = cx.cache.get_bounds(e);
            cx.cache.set_clip_region(e, intersect(bounds, parent_clip));
        }
        proof {
            assert(old(cx).tree.contains(e));
            assert(mid.contains(e));
            assert forall|j: int| 0 <= j < i + 1 implies #[trigger] cx.cache.row(tree[j].entity)
                == (CacheRow {
                clip_region: effective_clip(tree, &before, j),
                ..before.row(tree[j].entity)
            }) by {
                if j < i {
                    assert(tree[j].entity != tree[i as int].entity);
                    assert(mid.row(tree[j].entity) == (CacheRow {
                        clip_region: effective_clip(tree, &before, j),
                        ..before.row(tree[j].entity)
                    }));
                }
            }
            assert forall|j: int| i + 1 <= j < n implies #[trigger] cx.cache.row(tree[j].entity)
                == before.row(tree[j].entity) by {
                assert(tree[i as int].entity != tree[j].entity);
                assert(mid.row(tree[j].entity) == before.row(tree[j].entity));
            }
        }
        i += 1;
    }
}

/// A coefficient as a transform can have it: within what fits, the nearest bound
/// where it does not.
pub open spec fn clamp_coefficient(v: int) -> int {
    if v < i32::MIN {
        i32::MIN as int
    } else if v > i32::MAX {
        i32::MAX as int
    } else {
        v
    }
}

/// The transform `t` applied after a shift by `(x, y)` whole units.
pub open spec fn translated(t: Transform2D, x: int, y: int) -> Transform2D {
    Transform2D {
        e: clamp_coefficient(t.e + t.a * x + t.c * y) as i32,
        f: clamp_coefficient(t.f + t.b * x + t.d * y) as i32,
        ..t
    }
}

fn clamp_to_i32(v: i128) -> (r: i32)
    ensures
        r == clamp_coefficient(v as int),
{
    if v < i32::MIN as i128 {
        i32::MIN
    } else if v > i32::MAX as i128 {
        i32::MAX
    } else {
        v as i32
    }
}

/// The transform `t` applied after a shift by `(x, y)` whole units.
pub fn translate(t: Transform2D, x: i32, y: i32) -> (r: Transform2D)
    ensures
        r == translated(t, x as int, y as int),
{
    proof {
        assert(-0x4000_0000_0000_0000 <= t.a * x <= 0x4000_0000_0000_0000) by (nonlinear_arith)
            requires
                -0x8000_0000 <= t.a <= 0x7fff_ffff,
                -0x8000_0000 <= x <= 0x7fff_ffff,
        ;
        assert(-0x4000_0000_0000_0000 <= t.c * y <= 0x4000_0000_0000_0000) by (nonlinear_arith)
            requires
                -0x8000_0000 <= t.c <= 0x7fff_ffff,
                -0x8000_0000 <= y <= 0x7fff_ffff,
        ;
        assert(-0x4000_0000_0000_0000 <= t.b * x <= 0x4000_0000_0000_0000) by (nonlinear_arith)
            requires
                -0x8000_0000 <= t.b <= 0x7fff_ffff,
                -0x8000_0000 <= x <= 0x7fff_ffff,
        ;
        assert(-0x4000_0000_0000_0000 <= t.d * y <= 0x4000_0000_0000_0000) by (nonlinear_arith)
            requires
                -0x8000_0000 <= t.d <= 0x7fff_ffff,
                -0x8000_0000 <= y <= 0x7fff_ffff,
        ;
    }
    let ax: i128 = t.a as i128 * x as i128;
    let cy: i128 = t.c as i128 * y as i128;
    let bx: i128 = t.b as i128 * x as i128;
    let dy: i128 = t.d as i128 * y as i128;
    let e: i128 = t.e as i128 + ax + cy;
    let f: i128 = t.f as i128 + bx + dy;
    Transform2D { a: t.a, b: t.b, c: t.c, d: t.d, e: clamp_to_i32(e), f: clamp_to_i32(f) }
}

/// The transform of line `i`: for the root and for the entities right below it,
/// which stand for windows, the one that `cache` holds; for every other line the
/// transform of its parent, applied after the shift that the line's style declares.
pub open spec fn effective_transform(tree: Seq<Node>, cache: &crate::cache::CachedData, style: &Style, i: int) -> Transform2D
    decreases i + 1,
{
    if i < 0 || i >= tree.len() {
        Transform2D::spec_identity()
    } else if tree[i].depth <= 1 {
        cache.row(tree[i].entity).transform
    } else {
        proof {
            lemma_last_shallower(tree, i, tree[i].depth as int);
        }
        translated(
            effective_transform(tree, cache, style, parent_index(tree, i)),
            style.resolved(tree[i].entity).translate_x as int,
            style.resolved(tree[i].entity).translate_y as int,
        )
    }
}

/// Computes the transform of every entity of the tree: an entity is moved as its
/// parent is, and on top of that by the shift that its own style declares.
pub fn apply_transform<V, M>(cx: &mut Context<V, M>)
    requires
        old(cx).wf(),
    ensures
        final(cx).wf(),
        final(cx).same_but_cache(old(cx)),
        forall|x: Entity| #[trigger] final(cx).cache.contains(x) == old(cx).cache.contains(x),
        forall|x: Entity|
            !old(cx).tree.contains(x) ==> #[trigger] final(cx).cache.row(x) == old(cx).cache.row(x),
        forall|i: int|
            0 <= i < old(cx).tree@.len() ==> #[trigger] final(cx).cache.row(old(cx).tree@[i].entity)
                == (CacheRow {
                transform: effective_transform(old(cx).tree@, &old(cx).cache, &old(cx).style, i),
                ..old(cx).cache.row(old(cx).tree@[i].entity)
            }),
{
    let n: usize = cx.tree.len();
    let ghost tree = cx.tree@;
    let ghost before = cx.cache;
    let ghost style = cx.style;
    let mut i: usize = 0;
    while i < n
        invariant
            i <= n,
            n == tree.len(),
            cx.same_but_cache(old(cx)),
            old(cx).wf(),
            cx.cache.wf(),
            tree == old(cx).tree@,
            before == old(cx).cache,
            style == old(cx).style,
            forall|x: Entity| #[trigger] cx.cache.contains(x) == before.contains(x),
            forall|x: Entity| !old(cx).tree.contains(x) ==> #[trigger] cx.cache.row(x) == before.row(x),
            forall|j: int|
                0 <= j < i ==> #[trigger] cx.cache.row(tree[j].entity) == (CacheRow {
                    transform: effective_transform(tree, &before, &style, j),
                    ..before.row(tree[j].entity)
                }),
            forall|j: int| i <= j < n ==> #[trigger] cx.cache.row(tree[j].entity) == before.row(tree[j].entity),
        decreases n - i,
    {
        let e: Entity = cx.tree.entity_at(i);
        let depth: usize = cx.tree.depth_at(i);
        let ghost mid = cx.cache;
        proof {
            crate::tree::lemma_line_of_is(tree, i as int);
        }
        if depth > 1 {
            let p: usize = cx.tree.parent_position(i);
            let parent: Entity = cx.tree.entity_at(p);
            proof {
                crate::tree::lemma_line_of_is(tree, p as int);
                assert(cx.cache.row(tree[p as int].entity) == (CacheRow {
                    transform: effective_transform(tree, &before, &style, p as int),
                    ..before.row(tree[p as int].entity)
                }));
            }
            let parent_transform = cx.cache.get_transform(parent);
            let own = cx.style.get_resolved(e);
            cx.cache.set_transform(e, translate(parent_transform, own.translate_x, own.translate_y));
        }
        proof {
            assert(old(cx).tree.contains(e));
            assert(mid.contains(e));
            assert forall|j: int| 0 <= j < i + 1 implies #[trigger] cx.cache.row(tree[j].entity)
                == (CacheRow {
                transform: effective_transform(tree, &before, &style, j),
                ..before.row(tree[j].entity)
            }) by {
                if j < i {
                    assert(tree[j].entity != tree[i as int].entity);
                    assert(mid.row(tree[j].entity) == (CacheRow {
                        transform: effective_transform(tree, &before, &style, j),
                        ..before.row(tree[j].entity)
                    }));
                }
            }
            assert forall|j: int| i + 1 <= j < n implies #[trigger] cx.cache.row(tree[j].entity)
                == before.row(tree[j].entity) by {
                assert(tree[i as int].entity != tree[j].entity);
                assert(mid.row(tree[j].entity) == before.row(tree[j].entity));
            }
        }
        i += 1;
    }
}

} // verus!
