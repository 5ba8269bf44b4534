use crate::cache::{BoundingBox, CacheRow, CachedData};
use crate::context::Context;
use crate::entity::Entity;
use crate::events::event::{Event, GeometryChanged, Message, Propagation, WindowEvent};
use crate::tree::Node;
use vstd::prelude::*;

verus! {

/// Which parts of `now` differ from `before`.
pub open spec fn difference(now: BoundingBox, before: BoundingBox) -> GeometryChanged {
    GeometryChanged {
        posx: now.x != before.x,
        posy: now.y != before.y,
        width: now.w != before.w,
        height: now.h != before.h,
    }
}

/// Which parts of `now` differ from `before`.
pub fn compare_bounds(now: BoundingBox, before: BoundingBox) -> (g: GeometryChanged)
    ensures
        g == difference(now, before),
{
    GeometryChanged {
        posx: now.x != before.x,
        posy: now.y != before.y,
        width: now.w != before.w,
        height: now.h != before.h,
    }
}

/// The event that tells `e` which parts of its bounds changed.
pub open spec fn geometry_event<M>(e: Entity, changed: GeometryChanged) -> Event<M> {
    Event {
        message: Message::Window(WindowEvent::GeometryChanged(changed)),
        target: e,
        origin: e,
        propagation: Propagation::Up,
        consumed: false,
        trace: false,
    }
}

/// The events that report the changes of bounds of the first `n` lines of the
/// tree: one for every entity whose bounds differ from those last reported, in
/// pre-order.
pub open spec fn geometry_events<M>(tree: Seq<Node>, cache: &CachedData, n: int) -> Seq<Event<M>>
    decreases n,
{
    if n <= 0 {
        Seq::empty()
    } else {
        let before = geometry_events::<M>(tree, cache, n - 1);
        let row = cache.row(tree[n - 1].entity);
        let changed = difference(row.bounds(), row.previous);
        if changed.any() {
            before.push(geometry_event(tree[n - 1].entity, changed))
        } else {
            before
        }
    }
}

/// Compares the bounds of every entity of the tree with those that were last
/// reported. For each entity whose bounds differ, an event that says which parts
/// changed is queued behind what is queued, to travel upwards from the entity; the
/// bounds of every entity then count as reported.
pub fn geometry_changed<V, M>(cx: &mut Context<V, M>)
    requires
        old(cx).wf(),
    ensures
        final(cx).wf(),
        final(cx).same_but_cache_and_queue(old(cx)),
        final(cx).event_queue@ == old(cx).event_queue@ + geometry_events::<M>(
            old(cx).tree@,
            &old(cx).cache,
            old(cx).tree@.len() as int,
        ),
        forall|x: Entity| #[trigger] final(cx).cache.contains(x) == old(cx).cache.contains(x),
        forall|x: Entity|
            !old(cx).tree.contains(x) ==> #[trigger] final(cx).cache.row(x) == old(cx).cache.row(x),
        forall|x: Entity|
            old(cx).tree.contains(x) ==> #[trigger] final(cx).cache.row(x) == (CacheRow {
                previous: old(cx).cache.row(x).bounds(),
                ..old(cx).cache.row(x)
            }),
{
    let n: usize = cx.tree.len();
    let ghost tree = cx.tree@;
    let ghost before = cx.cache;
    let ghost queue = cx.event_queue@;
    let mut i: usize = 0;
    proof {
        assert(queue + geometry_events::<M>(tree, &before, 0) =~= queue);
    }
    while i < n
        invariant
            i <= n,
            n == tree.len(),
            cx.same_but_cache_and_queue(old(cx)),
            old(cx).wf(),
            cx.cache.wf(),
            tree == old(cx).tree@,
            before == old(cx).cache,
            queue == old(cx).event_queue@,
            cx.event_queue@ == queue + geometry_events::<M>(tree, &before, i as int),
            forall|x: Entity| #[trigger] cx.cache.contains(x) == before.contains(x),
            forall|x: Entity| !old(cx).tree.contains(x) ==> #[trigger] cx.cache.row(x) == before.row(x),
            forall|j: int|
                0 <= j < i ==> #[trigger] cx.cache.row(tree[j].entity) == (CacheRow {
                    previous: before.row(tree[j].entity).bounds(),
                    ..before.row(tree[j].entity)
                }),
            forall|j: int| i <= j < n ==> #[trigger] cx.cache.row(tree[j].entity) == before.row(tree[j].entity),
        decreases n - i,
    {
        let e: Entity = cx.tree.entity_at(i);
        let row: CacheRow = cx.cache.get_row(e);
        let bounds = BoundingBox { x: row.posx, y: row.posy, w: row.width, h: row.height };
        let changed = compare_bounds(bounds, row.previous);
        let ghost mid = cx.cache;
        let ghost mid_queue = cx.event_queue@;
        proof {
            crate::tree::lemma_line_of_is(tree, i as int);
        }
        if changed.is_any() {
            cx.event_queue.push_back(
                Event::new(Message::Window(WindowEvent::GeometryChanged(changed))).target(e).origin(
                    e,
                ).propagate(Propagation::Up),
            );
        }
        cx.cache.set_previous(e, bounds);
        proof {
            assert(old(cx).tree.contains(e));
            assert(mid.contains(e));
            assert(cx.event_queue@ =~= queue + geometry_events::<M>(tree, &before, i + 1));
            assert forall|j: int| 0 <= j < i + 1 implies #[trigger] cx.cache.row(tree[j].entity)
                == (CacheRow {
                previous: before.row(tree[j].entity).bounds(),
                ..before.row(tree[j].entity)
            }) by {
                if j < i {
                    assert(tree[j].entity != tree[i as int].entity);
                    assert(mid.row(tree[j].entity) == (CacheRow {
                        previous: before.row(tree[j].entity).bounds(),
                        ..before.row(tree[j].entity)
                    }));
                }
            }
            assert forall|j: int| i + 1 <= j < n implies #[trigger] cx.cache.row(tree[j].entity)
                == before.row(tree[j].entity) by {
                assert(tree[i as int].entity != tree[j].entity);
                assert(mid.row(tree[j].entity) == before.row(tree[j].entity));
            }
        }
        i += 1;
    }
    proof {
        assert forall|x: Entity| old(cx).tree.contains(x) implies #[trigger] cx.cache.row(x) == (
        CacheRow { previous: before.row(x).bounds(), ..before.row(x) }) by {
            crate::tree::lemma_line_of(tree, x);
            let j = crate::tree::line_of(tree, x);
            assert(cx.cache.row(tree[j].entity) == (CacheRow {
                previous: before.row(tree[j].entity).bounds(),
                ..before.row(tree[j].entity)
            }));
        }
    }
}

} // verus!
