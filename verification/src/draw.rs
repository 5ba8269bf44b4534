use crate::cache::{BoundingBox, CacheRow, CachedData, Display, Transform2D, Visibility};
use crate::context::Context;
use crate::entity::Entity;
use crate::tree::Node;
use vstd::prelude::*;

verus! {

/// What the painter needs to know of one entity.
#[derive(Clone, Copy, Debug, PartialEq, Eq, Structural)]
pub struct DrawItem {
    pub entity: Entity,
    pub clip_region: BoundingBox,
    pub transform: Transform2D,
    pub opacity: u8,
}

/// Whether an entity with the cache row `row` is painted at all.
pub open spec fn is_painted(row: CacheRow) -> bool {
    row.visibility == Visibility::Visible && row.display == Display::Shown && row.opacity != 0
}

/// Whether line `i` of the tree is painted into the window that `window` stands
/// for: every painted entity but the window's own is.
pub open spec fn paints(tree: Seq<Node>, cache: &CachedData, window: Entity, i: int) -> bool {
    &&& 0 <= i < tree.len()
    &&& tree[i].entity != window
    &&& is_painted(cache.row(tree[i].entity))
}

/// Whether line `a` is painted before line `b`: lower stacking levels first, and
/// within one level in pre-order.
pub open spec fn paints_before(tree: Seq<Node>, cache: &CachedData, a: int, b: int) -> bool {
    let za = cache.row(tree[a].entity).z_index;
    let zb = cache.row(tree[b].entity).z_index;
    za < zb || (za == zb && a < b)
}

/// `lines` lists exactly the lines of the tree that are painted into `window`, in
/// the order in which they are painted.
pub open spec fn is_paint_order(lines: Seq<usize>, tree: Seq<Node>, cache: &CachedData, window: Entity) -> bool {
    &&& forall|k: int| 0 <= k < lines.len() ==> paints(tree, cache, window, (#[trigger] lines[k]) as int)
    &&& forall|i: int| paints(tree, cache, window, i) ==> lines.contains(i as usize)
    &&& forall|a: int, b: int|
        0 <= a < b < lines.len() ==> paints_before(
            tree,
            cache,
            (#[trigger] lines[a]) as int,
            (#[trigger] lines[b]) as int,
        )
}

/// The lines of the tree that are painted into the window that `window` stands
/// for, in the order in which they are painted: by stacking level, and within one
/// level in pre-order.
pub fn paint_order<V, M>(cx: &Context<V, M>, window: Entity) -> (lines: Vec<usize>)
    ensures
        is_paint_order(lines@, cx.tree@, &cx.cache, window),
{
    let n: usize = cx.tree.len();
    let ghost tree = cx.tree@;
    let mut order: Vec<usize> = Vec::new();
    let mut i: usize = 0;
    while i < n
        invariant
            i <= n,
            n == tree.len(),
            tree == cx.tree@,
            forall|k: int|
                0 <= k < order@.len() ==> (#[trigger] order@[k]) < i && paints(
                    tree,
                    &cx.cache,
                    window,
                    order@[k] as int,
                ),
            forall|j: int| 0 <= j < i && paints(tree, &cx.cache, window, j) ==> order@.contains(j as usize),
            forall|a: int, b: int|
                0 <= a < b < order@.len() ==> paints_before(
                    tree,
                    &cx.cache,
                    (#[trigger] order@[a]) as int,
                    (#[trigger] order@[b]) as int,
                ),
        decreases n - i,
    {
        let e: Entity = cx.tree.entity_at(i);
        let row: CacheRow = cx.cache.get_row(e);
        let ghost before = order@;
        if e != window && row.visibility == Visibility::Visible && row.display == Display::Shown
            && row.opacity != 0 {
            let mut p: usize = order.len();
            while p > 0 && cx.cache.get_z_index(cx.tree.entity_at(order[p - 1])) > row.z_index
                invariant
                    p <= order@.len(),
                    order@ == before,
                    tree == cx.tree@,
                    forall|k: int| 0 <= k < order@.len() ==> (#[trigger] order@[k]) < tree.len(),
                    forall|k: int|
                        p <= k < order@.len() ==> cx.cache.row(tree[(#[trigger] order@[k]) as int].entity).z_index
                            > row.z_index,
                decreases p,
            {
                p -= 1;
            }
            order.insert(p, i);
            proof {
                let after = order@;
                assert forall|k: int| 0 <= k < after.len() implies (#[trigger] after[k]) < i + 1
                    && paints(tree, &cx.cache, window, after[k] as int) by {
                    if k < p {
                        assert(after[k] == before[k]);
                    } else if k > p {
                        assert(after[k] == before[k - 1]);
                    }
                }
                assert forall|j: int|
                    0 <= j < i + 1 && paints(tree, &cx.cache, window, j) implies after.contains(
                    j as usize,
                ) by {
                    if j == i {
                        assert(after[p as int] == j as usize);
                    } else {
                        assert(before.contains(j as usize));
                        let k = choose|k: int| 0 <= k < before.len() && before[k] == j as usize;
                        if k < p {
                            assert(after[k] == j as usize);
                        } else {
                            assert(after[k + 1] == j as usize);
                        }
                    }
                }
                assert forall|a: int, b: int| 0 <= a < b < after.len() implies paints_before(
                    tree,
                    &cx.cache,
                    (#[trigger] after[a]) as int,
                    (#[trigger] after[b]) as int,
                ) by {
                    let a0 = if a < p { a } else { a - 1 };
                    let b0 = if b < p { b } else { b - 1 };
                    if a != p && b != p {
                        assert(after[a] == before[a0] && after[b] == before[b0]);
                    } else if b == p {
                        // what stands before the new line is not above it
                        assert(after[a] == before[a]);
                        if p > 0 {
                            if a < p - 1 {
                                assert(paints_before(
                                    tree,
                                    &cx.cache,
                                    before[a] as int,
                                    before[p - 1] as int,
                                ));
                            }
                        }
                        assert(before[a] < i);
                    } else {
                        assert(after[b] == before[b - 1]);
                    }
                }
            }
        } else {
            proof {
                assert(!paints(tree, &cx.cache, window, i as int));
            }
        }
        i += 1;
    }
    order
}

/// What the painter paints into the window that `window` stands for, in order:
/// every entity of the tree that is visible, displayed and not fully transparent,
/// but for the window's own entity, by stacking level and within one level in
/// pre-order, each with its clip rectangle, transform and opacity.
pub fn draw_list<V, M>(cx: &Context<V, M>, window: Entity) -> (items: Vec<DrawItem>)
    ensures
        exists|lines: Seq<usize>|
            #[trigger] is_paint_order(lines, cx.tree@, &cx.cache, window) && lines.len()
                == items@.len() && forall|k: int|
                0 <= k < items@.len() ==> (#[trigger] items@[k]) == item_of(
                    cx.cache.row(cx.tree@[lines[k] as int].entity),
                    cx.tree@[lines[k] as int].entity,
                ),
{
    let lines: Vec<usize> = paint_order(cx, window);
    let mut items: Vec<DrawItem> = Vec::new();
    let mut k: usize = 0;
    while k < lines.len()
        invariant
            k <= lines.len(),
            items@.len() == k,
            is_paint_order(lines@, cx.tree@, &cx.cache, window),
            forall|j: int|
                0 <= j < k ==> (#[trigger] items@[j]) == item_of(
                    cx.cache.row(cx.tree@[lines@[j] as int].entity),
                    cx.tree@[lines@[j] as int].entity,
                ),
        decreases lines.len() - k,
    {
        assert(paints(cx.tree@, &cx.cache, window, lines@[k as int] as int));
        let e: Entity = cx.tree.entity_at(lines[k]);
        let row: CacheRow = cx.cache.get_row(e);
        items.push(
            DrawItem {
                entity: e,
                clip_region: row.clip_region,
                transform: row.transform,
                opacity: row.opacity,
            },
        );
        k += 1;
    }
    items
}

/// What the painter is told of `entity`, whose cache row is `row`.
pub open spec fn item_of(row: CacheRow, entity: Entity) -> DrawItem {
    DrawItem {
        entity,
        clip_region: row.clip_region,
        transform: row.transform,
        opacity: row.opacity,
    }
}

} // verus!
