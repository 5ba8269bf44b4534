use crate::cache::{CacheRow, CachedData, Display, Visibility};
use crate::context::Context;
use crate::entity::Entity;
use crate::events::event::{Event, Message, Propagation, WindowEvent};
use crate::tree::Node;
use vstd::prelude::*;

verus! {

/// Whether the point `(x, y)` rests on an entity with the cache row `row`: the
/// entity is painted, can be hovered, and the point lies within its bounds and
/// within its clip rectangle.
pub open spec fn is_hit(row: CacheRow, x: int, y: int) -> bool {
    &&& row.visibility == Visibility::Visible
    &&& row.display == Display::Shown
    &&& row.opacity > 0
    &&& row.hoverable
    &&& row.posx <= x < row.posx + row.width
    &&& row.posy <= y < row.posy + row.height
    &&& row.clip_region.x <= x < row.clip_region.x + row.clip_region.w
    &&& row.clip_region.y <= y < row.clip_region.y + row.clip_region.h
}

/// Whether the point `(x, y)` rests on an entity with the cache row `row`.
pub fn hit_test(row: &CacheRow, x: i32, y: i32) -> (b: bool)
    ensures
        b == is_hit(*row, x as int, y as int),
{
    let px: i64 = x as i64;
    let py: i64 = y as i64;
    row.visibility == Visibility::Visible && row.display == Display::Shown && row.opacity > 0
        && row.hoverable && row.posx as i64 <= px && px < row.posx as i64 + row.width as i64
        && row.posy as i64 <= py && py < row.posy as i64 + row.height as i64
        && row.clip_region.x as i64 <= px && px < row.clip_region.x as i64
        + row.clip_region.w as i64 && row.clip_region.y as i64 <= py && py
        < row.clip_region.y as i64 + row.clip_region.h as i64
}

/// Of the first `n` lines of the tree, the entity on which the point rests and
/// which is painted last: the one with the highest stacking level, and among those
/// the last in pre-order.
pub open spec fn topmost_hit(tree: Seq<Node>, cache: &CachedData, x: int, y: int, n: int) -> Option<Entity>
    decreases n,
{
    if n <= 0 {
        None
    } else {
        let before = topmost_hit(tree, cache, x, y, n - 1);
        let e = tree[n - 1].entity;
        if is_hit(cache.row(e), x, y) && (before is None || cache.row(e).z_index >= cache.row(
            before->0,
        ).z_index) {
            Some(e)
        } else {
            before
        }
    }
}

/// Where the pointer rests does not depend on the transforms that the cache holds.
pub proof fn lemma_hit_ignores_transform(tree: Seq<Node>, a: &CachedData, b: &CachedData, x: int, y: int, n: int)
    requires
        n <= tree.len(),
        forall|j: int|
            0 <= j < n ==> #[trigger] b.row(tree[j].entity) == (CacheRow {
                transform: b.row(tree[j].entity).transform,
                ..a.row(tree[j].entity)
            }),
    ensures
        topmost_hit(tree, b, x, y, n) == topmost_hit(tree, a, x, y, n),
    decreases n,
{
    if n > 0 {
        lemma_hit_ignores_transform(tree, a, b, x, y, n - 1);
        lemma_topmost_hit(tree, a, x, y, n - 1);
        let e = tree[n - 1].entity;
        assert(b.row(e) == CacheRow { transform: b.row(e).transform, ..a.row(e) });
        match topmost_hit(tree, a, x, y, n - 1) {
            Some(t) => {
                let k = choose|k: int|
                    tree[k].entity == t && #[trigger] is_last_painted_hit(tree, a, x, y, n - 1, k);
                assert(b.row(tree[k].entity) == CacheRow {
                    transform: b.row(tree[k].entity).transform,
                    ..a.row(tree[k].entity)
                });
            },
            None => {},
        }
    }
}

/// Whether the point `(x, y)` rests on the entity of line `j`.
pub open spec fn hits_line(tree: Seq<Node>, cache: &CachedData, x: int, y: int, j: int) -> bool {
    is_hit(cache.row(tree[j].entity), x, y)
}

/// Line `k` is, of the first `n` lines on which the point rests, the one that is
/// painted last: none has a higher stacking level, and none of the same level comes
/// later.
pub open spec fn is_last_painted_hit(tree: Seq<Node>, cache: &CachedData, x: int, y: int, n: int, k: int) -> bool {
    &&& 0 <= k < n
    &&& hits_line(tree, cache, x, y, k)
    &&& forall|j: int|
        0 <= j < n && #[trigger] hits_line(tree, cache, x, y, j) ==> cache.row(
            tree[j].entity,
        ).z_index < cache.row(tree[k].entity).z_index || (cache.row(tree[j].entity).z_index
            == cache.row(tree[k].entity).z_index && j <= k)
}

/// The topmost hit among the first `n` lines is the entity of the line that is
/// painted last of those on which the point rests. Where the point rests on none
/// of the lines, there is no topmost hit.
pub proof fn lemma_topmost_hit(tree: Seq<Node>, cache: &CachedData, x: int, y: int, n: int)
    requires
        n <= tree.len(),
    ensures
        topmost_hit(tree, cache, x, y, n) matches Some(t) ==> exists|k: int|
            tree[k].entity == t && #[trigger] is_last_painted_hit(tree, cache, x, y, n, k),
        topmost_hit(tree, cache, x, y, n) is None ==> forall|j: int|
            0 <= j < n ==> !#[trigger] hits_line(tree, cache, x, y, j),
    decreases n,
{
    if n > 0 {
        lemma_topmost_hit(tree, cache, x, y, n - 1);
        let before = topmost_hit(tree, cache, x, y, n - 1);
        let e = tree[n - 1].entity;
        if is_hit(cache.row(e), x, y) && (before is None || cache.row(e).z_index >= cache.row(
            before->0,
        ).z_index) {
            assert(hits_line(tree, cache, x, y, n - 1));
            match before {
                Some(b) => {
                    let kb = choose|k: int|
                        tree[k].entity == b && #[trigger] is_last_painted_hit(
                            tree,
                            cache,
                            x,
                            y,
                            n - 1,
                            k,
                        );
                    assert(is_last_painted_hit(tree, cache, x, y, n, n - 1));
                },
                None => {
                    assert(is_last_painted_hit(tree, cache, x, y, n, n - 1));
                },
            }
        } else {
            match before {
                Some(b) => {
                    let kb = choose|k: int|
                        tree[k].entity == b && #[trigger] is_last_painted_hit(
                            tree,
                            cache,
                            x,
                            y,
                            n - 1,
                            k,
                        );
                    assert(is_last_painted_hit(tree, cache, x, y, n, kb)) by {
                        if hits_line(tree, cache, x, y, n - 1) {
                            assert(cache.row(e).z_index < cache.row(b).z_index);
                        }
                    }
                },
                None => {
                    assert(!hits_line(tree, cache, x, y, n - 1));
                },
            }
        }
    }
}

/// The entity under the pointer: the topmost one that the pointer rests on, or the
/// root where it rests on none.
pub open spec fn entity_under<V, M>(cx: &Context<V, M>) -> Entity {
    match topmost_hit(
        cx.tree@,
        &cx.cache,
        cx.mouse.cursorx as int,
        cx.mouse.cursory as int,
        cx.tree@.len() as int,
    ) {
        Some(e) => e,
        None => Entity::spec_root(),
    }
}

/// What is queued when the hovered entity changes from `before` to `now`: the new
/// one is told that the pointer entered, then the old one that it left. Nothing is
/// queued when the hovered entity stays the same.
pub open spec fn hover_events<M>(before: Entity, now: Entity) -> Seq<Event<M>> {
    if before == now {
        Seq::empty()
    } else {
        seq![
            Event {
                message: Message::Window(WindowEvent::MouseEnter),
                target: now,
                origin: Entity::spec_null(),
                propagation: Propagation::Up,
                consumed: false,
                trace: false,
            },
            Event {
                message: Message::Window(WindowEvent::MouseLeave),
                target: before,
                origin: Entity::spec_null(),
                propagation: Propagation::Up,
                consumed: false,
                trace: false,
            },
        ]
    }
}

/// Finds the entity under the pointer. Where it is another one than before, the
/// new one is told that the pointer entered and the old one that it left, in this
/// order, and styles and painting are asked to be done anew.
pub fn apply_hover<V, M>(cx: &mut Context<V, M>)
    requires
        old(cx).wf(),
    ensures
        final(cx).wf(),
        final(cx).hovered == entity_under(old(cx)),
        final(cx).same_but_hover(old(cx)),
        final(cx).style.same_but_flags(&old(cx).style),
        final(cx).event_queue@ == old(cx).event_queue@ + hover_events::<M>(
            old(cx).hovered,
            final(cx).hovered,
        ),
        final(cx).style.flags() == if final(cx).hovered == old(cx).hovered {
            old(cx).style.flags()
        } else {
            (true, old(cx).style.flags().1, true)
        },
{
    let n: usize = cx.tree.len();
    let x: i32 = cx.mouse.cursorx;
    let y: i32 = cx.mouse.cursory;
    let mut best: Option<Entity> = None;
    let mut best_z: i32 = 0;
    let mut i: usize = 0;
    while i < n
        invariant
            i <= n,
            n == cx.tree@.len(),
            *cx == *old(cx),
            best == topmost_hit(cx.tree@, &cx.cache, x as int, y as int, i as int),
            best matches Some(b) ==> best_z == cx.cache.row(b).z_index,
        decreases n - i,
    {
        let e: Entity = cx.tree.entity_at(i);
        let row: CacheRow = cx.cache.get_row(e);
        if hit_test(&row, x, y) && (best.is_none() || row.z_index >= best_z) {
            best = Some(e);
            best_z = row.z_index;
        }
        i += 1;
    }
    let hovered: Entity = match best {
        Some(e) => e,
        None => Entity::root(),
    };
    if hovered != cx.hovered {
        cx.event_queue.push_back(Event::new(Message::Window(WindowEvent::MouseEnter)).target(hovered));
        cx.event_queue.push_back(
            Event::new(Message::Window(WindowEvent::MouseLeave)).target(cx.hovered),
        );
        cx.style.set_needs_restyle(true);
        cx.style.set_needs_redraw(true);
        cx.hovered = hovered;
        assert(cx.event_queue@ =~= old(cx).event_queue@ + hover_events::<M>(old(cx).hovered, hovered));
    } else {
        assert(cx.event_queue@ =~= old(cx).event_queue@ + hover_events::<M>(old(cx).hovered, hovered));
    }
}

} // verus!
