use crate::binding::ModelEntry;
use crate::context::{Context, Model, ViewHandler};
use crate::entity::Entity;
use crate::events::event::{Event, Message, Propagation};
use crate::storage::{put_in, taken_out};
use crate::tree::Tree;
use std::collections::VecDeque;
use vstd::prelude::*;

verus! {

/// One line of the record of a flush: an event was offered to an entity.
#[derive(Clone, Copy, Debug, PartialEq, Eq, Structural)]
pub struct Delivery {
    /// The place of the event among the events of the flush.
    pub event: usize,
    /// The entity whose view and models were offered the event.
    pub entity: Entity,
    /// Whether the entity had a view to offer it to.
    pub had_view: bool,
    /// Whether the event was consumed when this entity was done with it.
    pub consumed: bool,
    /// Whether the event asked for its deliveries to be reported.
    pub trace: bool,
}

/// The entities that an event for `target` is offered to if nobody consumes it:
/// the target alone, or under `Propagation::Up` the target followed by its
/// ancestors, nearest first, up to the root.
pub open spec fn path_of(tree: &Tree, target: Entity, propagation: Propagation) -> Seq<Entity> {
    if propagation == Propagation::Up && tree.contains(target) {
        tree.ancestors_of(target)
    } else {
        seq![target]
    }
}

/// `block` records an event offered along `path`: to the first entity always, then
/// on to the next for as long as the event was not consumed, and no further than
/// the first entity that left it consumed.
pub open spec fn is_block(block: Seq<Delivery>, path: Seq<Entity>, event: int) -> bool {
    &&& 1 <= block.len() <= path.len()
    &&& forall|k: int|
        0 <= k < block.len() ==> (#[trigger] block[k]).entity == path[k] && block[k].event == event
    &&& forall|k: int| 0 <= k < block.len() - 1 ==> !(#[trigger] block[k]).consumed
    &&& block.len() < path.len() ==> block.last().consumed
}

/// `log` records, event after event in the order of `events`, each event offered
/// along its path in `tree`.
pub open spec fn is_trace(log: Seq<Vec<Delivery>>, events: Seq<(Entity, Propagation)>, tree: &Tree) -> bool {
    &&& log.len() == events.len()
    &&& forall|i: int|
        0 <= i < log.len() ==> is_block((#[trigger] log[i])@, path_of(tree, events[i].0, events[i].1), i)
}

/// An event is offered to the entities of its path in the order of the path, and
/// an entity that leaves it consumed is the last to be offered it.
pub proof fn lemma_block_order(block: Seq<Delivery>, path: Seq<Entity>, event: int, k: int)
    requires
        is_block(block, path, event),
        0 <= k < block.len(),
    ensures
        block[k].entity == path[k],
        block[k].consumed ==> k == block.len() - 1,
        !block[k].consumed && k < path.len() - 1 ==> k + 1 < block.len() && block[k + 1].entity
            == path[k + 1],
{
}

/// An event that travels upwards and that nobody consumes is offered to the target
/// and then to each of its ancestors up to the root, nearest first; an event that
/// is sent directly is offered to the target alone.
pub proof fn lemma_paths(tree: &Tree, target: Entity, block: Seq<Delivery>, event: int)
    requires
        tree.wf(),
        tree.contains(target),
    ensures
        path_of(tree, target, Propagation::Up) == tree.ancestors_of(target),
        path_of(tree, target, Propagation::Up)[0] == target,
        path_of(tree, target, Propagation::Up).last() == Entity::spec_root(),
        tree.parent_of(target) matches Some(p) ==> path_of(tree, target, Propagation::Up) == seq![
            target,
        ] + path_of(tree, p, Propagation::Up),
        path_of(tree, target, Propagation::Direct) == seq![target],
        is_block(block, path_of(tree, target, Propagation::Direct), event) ==> block.len() == 1
            && block[0].entity == target,
{
    tree.lemma_one_parent(target);
}

/// The requests to the frame loop among `events`, in order, each as an event of
/// its own with the target and origin of the event that carried it.
pub open spec fn app_requests<M>(events: Seq<Event<M>>) -> Seq<Event<M>>
    decreases events.len(),
{
    if events.len() == 0 {
        Seq::empty()
    } else {
        let before = app_requests(events.drop_last());
        match events.last().app_request() {
            Some(a) => before.push(
                Event {
                    message: Message::App(a),
                    target: events.last().target,
                    origin: events.last().origin,
                    propagation: Propagation::Up,
                    consumed: false,
                    trace: false,
                },
            ),
            None => before,
        }
    }
}

/// Where each of `events` is headed and how far it travels.
pub open spec fn routes<M>(events: Seq<Event<M>>) -> Seq<(Entity, Propagation)> {
    events.map_values(|e: Event<M>| (e.target, e.propagation))
}

/// No entity has a view or models: an event finds nobody to handle it.
pub open spec fn nobody_home<V, M>(cx: &Context<V, M>) -> bool {
    forall|e: Entity| !cx.views.contains(e) && !cx.data.contains(e)
}

/// The view of `entity` was offered `offered` between `before` and `after`: taken
/// out of the context, it found the context `found`, with `entity` as the current
/// entity, and left the context `left`, the event `answered` and the view `view`,
/// which was attached to `entity` again if `entity` was still live.
pub open spec fn view_handled<V: ViewHandler<M>, M>(before: Context<V, M>, entity: Entity, offered: Event<M>, found: Context<V, M>, left: Context<V, M>, view: V, after: Context<V, M>, answered: Event<M>) -> bool {
    &&& taken_out(before.views, entity, found.views)
    &&& found.same_but_views(&(Context { current: entity, ..before }))
    &&& before.views.value(entity).handles(found, offered, left, answered, view)
    &&& after.same_but_views(&left)
    &&& if left.entity_manager.is_alive_spec(entity) {
        put_in(left.views, entity, view, after.views)
    } else {
        after.views == left.views
    }
}

/// What offering `offered` to the view of `entity` makes of the context `before`
/// and of the event: nothing where `entity` has no view; else what the view's
/// handler made of them.
pub open spec fn view_offered<V: ViewHandler<M>, M>(before: Context<V, M>, entity: Entity, offered: Event<M>, after: Context<V, M>, answered: Event<M>) -> bool {
    if before.views.contains(entity) {
        exists|found: Context<V, M>, left: Context<V, M>, view: V| #[trigger]
            view_handled(before, entity, offered, found, left, view, after, answered)
    } else {
        after == before && answered == offered
    }
}

/// The turn of the `k`-th model of `entity`: with `entity` as the current
/// entity it was offered the event as the model before it left it, and left the
/// next context, the next event, and itself as `reacted` has it, under its tag.
pub open spec fn model_step<V, M: Model<V>>(entity: Entity, original: Seq<ModelEntry<M>>, reacted: Seq<ModelEntry<M>>, contexts: Seq<Context<V, M>>, events: Seq<Event<M>>, k: int) -> bool {
    &&& reacted[k].tag == original[k].tag
    &&& original[k].model.reacts(
        Context { current: entity, ..contexts[k] },
        events[k],
        contexts[k + 1],
        events[k + 1],
        reacted[k].model,
    )
}

/// The models of `entity` were offered `offered` between `before` and `after`:
/// the store was taken out of the context, its models had their turns in the order
/// of the store, and the store, holding the models as they are now, was put back
/// if `entity` was still live. `contexts` and `events` are the context and the
/// event before and after every turn.
pub open spec fn models_handled<V, M: Model<V>>(before: Context<V, M>, entity: Entity, offered: Event<M>, reacted: Seq<ModelEntry<M>>, contexts: Seq<Context<V, M>>, events: Seq<Event<M>>, after: Context<V, M>, answered: Event<M>) -> bool {
    let original = before.data.value(entity)@;
    &&& reacted.len() == original.len()
    &&& contexts.len() == original.len() + 1
    &&& events.len() == original.len() + 1
    &&& taken_out(before.data, entity, contexts[0].data)
    &&& contexts[0].same_but_data(&before)
    &&& events[0] == offered
    &&& forall|k: int|
        0 <= k < original.len() ==> #[trigger] model_step(entity, original, reacted, contexts, events, k)
    &&& answered == events.last()
    &&& after.same_but_data(&contexts.last())
    &&& if contexts.last().entity_manager.is_alive_spec(entity) {
        &&& put_in(contexts.last().data, entity, after.data.value(entity), after.data)
        &&& after.data.value(entity)@ == reacted
    } else {
        after.data == contexts.last().data
    }
}

/// What offering `offered` to the models of `entity` makes of the context
/// `before` and of the event: nothing where `entity` has no store; else what the
/// models made of them, one after the other.
pub open spec fn models_offered<V, M: Model<V>>(before: Context<V, M>, entity: Entity, offered: Event<M>, after: Context<V, M>, answered: Event<M>) -> bool {
    if before.data.contains(entity) {
        exists|reacted: Seq<ModelEntry<M>>, contexts: Seq<Context<V, M>>, events: Seq<Event<M>>| #[trigger]
            models_handled(before, entity, offered, reacted, contexts, events, after, answered)
    } else {
        after == before && answered == offered
    }
}

/// One delivery in full: the view of `entity` is offered the event first, which
/// leaves the context `mid` and the event `between`; then the models are, which
/// leaves the context `last`; and the current entity is put back to what it was
/// if `restore` is set.
pub open spec fn delivery<V: ViewHandler<M>, M: Model<V>>(before: Context<V, M>, entity: Entity, offered: Event<M>, restore: bool, mid: Context<V, M>, between: Event<M>, last: Context<V, M>, after: Context<V, M>, answered: Event<M>) -> bool {
    &&& view_offered(before, entity, offered, mid, between)
    &&& models_offered(mid, entity, between, last, answered)
    &&& after == (Context { current: if restore { before.current } else { last.current }, ..last })
}

/// Offering `offered` to `entity` makes the context `after` of `before` and the
/// event `answered` of `offered`.
pub open spec fn delivered<V: ViewHandler<M>, M: Model<V>>(before: Context<V, M>, entity: Entity, offered: Event<M>, restore: bool, after: Context<V, M>, answered: Event<M>) -> bool {
    exists|mid: Context<V, M>, between: Event<M>, last: Context<V, M>| #[trigger]
        delivery(before, entity, offered, restore, mid, between, last, after, answered)
}

/// The `k`-th delivery of a dispatch is what its line of the record says: the
/// event, as the delivery before left it, was offered to the line's entity, and
/// the line tells whether the entity had a view and whether the event was
/// consumed afterwards. The current entity is put back after every delivery but
/// the first.
pub open spec fn dispatch_step<V: ViewHandler<M>, M: Model<V>>(block: Seq<Delivery>, contexts: Seq<Context<V, M>>, events: Seq<Event<M>>, k: int) -> bool {
    &&& delivered(contexts[k], block[k].entity, events[k], k > 0, contexts[k + 1], events[k + 1])
    &&& block[k].had_view == contexts[k].views.contains(block[k].entity)
    &&& block[k].consumed == events[k + 1].consumed
}

/// `contexts` and `events` are the course of the dispatch that `block` records:
/// the context and the event before and after every delivery, from `start` and
/// `offered` to `end` and `answered`.
pub open spec fn is_dispatch<V: ViewHandler<M>, M: Model<V>>(block: Seq<Delivery>, start: Context<V, M>, offered: Event<M>, end: Context<V, M>, answered: Event<M>, contexts: Seq<Context<V, M>>, events: Seq<Event<M>>) -> bool {
    &&& contexts.len() == block.len() + 1
    &&& events.len() == block.len() + 1
    &&& contexts[0] == start
    &&& events[0] == offered
    &&& contexts.last() == end
    &&& events.last() == answered
    &&& forall|k: int| 0 <= k < block.len() ==> #[trigger] dispatch_step(block, contexts, events, k)
}

/// The deliveries that `block` records were made, and no other: they make the
/// context `end` of `start` and the event `answered` of `offered`.
pub open spec fn dispatched<V: ViewHandler<M>, M: Model<V>>(block: Seq<Delivery>, start: Context<V, M>, offered: Event<M>, end: Context<V, M>, answered: Event<M>) -> bool {
    exists|contexts: Seq<Context<V, M>>, events: Seq<Event<M>>| #[trigger]
        is_dispatch(block, start, offered, end, answered, contexts, events)
}

/// The `i`-th event of a flush: the deliveries of its block of the record were
/// made, between the contexts before and after it, and left the event as `handled`
/// has it.
pub open spec fn flush_step<V: ViewHandler<M>, M: Model<V>>(queued: Seq<Event<M>>, log: Seq<Vec<Delivery>>, handled: Seq<Event<M>>, contexts: Seq<Context<V, M>>, i: int) -> bool {
    dispatched(log[i]@, contexts[i], queued[i], contexts[i + 1], handled[i])
}

/// `contexts` is the course of a flush of the events `queued`: the context before
/// and after every event, beginning with the context `start` with its queue
/// emptied and ending with `end`. `log` is the record of the deliveries and
/// `handled` the events as they were left.
pub open spec fn is_flush<V: ViewHandler<M>, M: Model<V>>(queued: Seq<Event<M>>, log: Seq<Vec<Delivery>>, handled: Seq<Event<M>>, start: Context<V, M>, end: Context<V, M>, contexts: Seq<Context<V, M>>) -> bool {
    &&& log.len() == queued.len()
    &&& handled.len() == queued.len()
    &&& contexts.len() == queued.len() + 1
    &&& contexts[0].same_but_queue(&start)
    &&& contexts[0].event_queue@ == Seq::<Event<M>>::empty()
    &&& contexts.last() == end
    &&& forall|i: int| 0 <= i < queued.len() ==> #[trigger] flush_step(queued, log, handled, contexts, i)
}

/// The deliveries of a dispatch are made along the path of the event, in the
/// order of the path: the `k`-th goes to the `k`-th entity of the path and is
/// offered the event as the deliveries before it left it. An entity is offered the
/// event only if none before it left it consumed; the entity that leaves it
/// consumed is the last; and while the event is not consumed and the path goes on,
/// so do the deliveries.
pub proof fn lemma_dispatch_order<V: ViewHandler<M>, M: Model<V>>(block: Seq<Delivery>, path: Seq<Entity>, index: int, start: Context<V, M>, offered: Event<M>, end: Context<V, M>, answered: Event<M>, contexts: Seq<Context<V, M>>, events: Seq<Event<M>>, k: int)
    requires
        is_block(block, path, index),
        is_dispatch(block, start, offered, end, answered, contexts, events),
        0 <= k < block.len(),
    ensures
        delivered(contexts[k], path[k], events[k], k > 0, contexts[k + 1], events[k + 1]),
        k == 0 ==> contexts[k] == start && events[k] == offered,
        k > 0 ==> !events[k].consumed,
        events[k + 1].consumed ==> k == block.len() - 1,
        !events[k + 1].consumed && k + 1 < path.len() ==> k + 1 < block.len(),
        k == block.len() - 1 ==> contexts[k + 1] == end && events[k + 1] == answered,
{
    assert(dispatch_step(block, contexts, events, k));
    if k > 0 {
        assert(dispatch_step(block, contexts, events, k - 1));
        assert(!block[k - 1].consumed);
    }
}

/// An event that is sent directly is delivered once, to its target; one that
/// travels upwards and that nobody consumes is delivered to the target and to
/// every ancestor of it up to the root, once each.
pub proof fn lemma_dispatch_reach<V: ViewHandler<M>, M: Model<V>>(tree: &Tree, block: Seq<Delivery>, index: int, start: Context<V, M>, offered: Event<M>, end: Context<V, M>, answered: Event<M>, contexts: Seq<Context<V, M>>, events: Seq<Event<M>>)
    requires
        tree.wf(),
        is_block(block, path_of(tree, offered.target, offered.propagation), index),
        is_dispatch(block, start, offered, end, answered, contexts, events),
    ensures
        block[0].entity == offered.target,
        offered.propagation == Propagation::Direct ==> block.len() == 1,
        !answered.consumed ==> block.len() == path_of(tree, offered.target, offered.propagation).len(),
        offered.propagation == Propagation::Up && tree.contains(offered.target)
            && !answered.consumed ==> block.len() == tree.ancestors_of(offered.target).len()
            && forall|k: int|
            0 <= k < block.len() ==> (#[trigger] block[k]).entity == tree.ancestors_of(offered.target)[k],
{
    let path = path_of(tree, offered.target, offered.propagation);
    let last = block.len() - 1;
    assert(dispatch_step(block, contexts, events, last));
    if tree.contains(offered.target) {
        tree.lemma_one_parent(offered.target);
    }
}

/// Around the call of a view's handler the runtime changes nothing but the
/// store of views and the current entity: the handler finds the context as it was,
/// without its own view and with its entity current, and what it leaves is kept.
/// A view whose entity is still live is attached again, as the handler left it;
/// and where the handler left the context as it found it, every other entity has
/// the view that it had.
pub proof fn lemma_view_call<V: ViewHandler<M>, M>(before: Context<V, M>, entity: Entity, offered: Event<M>, found: Context<V, M>, left: Context<V, M>, view: V, after: Context<V, M>, answered: Event<M>)
    requires
        before.wf(),
        view_handled(before, entity, offered, found, left, view, after, answered),
    ensures
        found.current == entity,
        !found.views.contains(entity),
        forall|x: Entity|
            x != entity && before.views.contains(x) ==> #[trigger] found.views.contains(x)
                && found.views.value(x) == before.views.value(x),
        found.event_queue == before.event_queue,
        found.data == before.data,
        found.tree == before.tree,
        after.event_queue == left.event_queue,
        after.data == left.data,
        after.tree == left.tree,
        after.current == left.current,
        left.entity_manager.is_alive_spec(entity) ==> after.views.contains(entity)
            && after.views.value(entity) == view,
        left == found ==> after.same_but_views(&found) && forall|x: Entity| #[trigger]
            after.views.contains(x) == before.views.contains(x),
        left == found ==> forall|x: Entity|
            x != entity && before.views.contains(x) ==> #[trigger] after.views.value(x)
                == before.views.value(x),
{
    if left == found {
        assert(before.views.contains(entity));
        assert(before.entity_manager.is_alive_spec(entity));
        assert forall|x: Entity| #[trigger] after.views.contains(x) == before.views.contains(x) by {
            if before.views.contains(x) {
                before.entity_manager.lemma_alive(entity, x);
            }
        }
        assert forall|x: Entity| x != entity && before.views.contains(x) implies #[trigger] after.views.value(x)
            == before.views.value(x) by {
            before.entity_manager.lemma_alive(entity, x);
        }
    }
}

/// Around the calls of an entity's models the runtime changes nothing but the
/// store of models and the current entity: the first model finds the context as it
/// was, without the store of its entity and with the entity current; every model
/// finds what the one before it left; and what the last leaves is kept. The models
/// keep their tags and their order, and a store whose entity is still live is put
/// back with the models as they are now.
pub proof fn lemma_model_calls<V, M: Model<V>>(before: Context<V, M>, entity: Entity, offered: Event<M>, reacted: Seq<ModelEntry<M>>, contexts: Seq<Context<V, M>>, events: Seq<Event<M>>, after: Context<V, M>, answered: Event<M>, k: int)
    requires
        models_handled(before, entity, offered, reacted, contexts, events, after, answered),
        0 <= k < before.data.value(entity)@.len(),
    ensures
        !contexts[0].data.contains(entity),
        contexts[0].event_queue == before.event_queue,
        contexts[0].views == before.views,
        contexts[0].tree == before.tree,
        before.data.value(entity)@[k].model.reacts(
            Context { current: entity, ..contexts[k] },
            events[k],
            contexts[k + 1],
            events[k + 1],
            reacted[k].model,
        ),
        reacted[k].tag == before.data.value(entity)@[k].tag,
        after.event_queue == contexts.last().event_queue,
        after.views == contexts.last().views,
        after.tree == contexts.last().tree,
        contexts.last().entity_manager.is_alive_spec(entity) ==> after.data.contains(entity)
            && after.data.value(entity)@ == reacted,
{
    assert(model_step(entity, before.data.value(entity)@, reacted, contexts, events, k));
}

/// Within one delivery the view is called before the models: the models are
/// offered the event as the view's handler left it, in the context that it left.
pub proof fn lemma_view_before_models<V: ViewHandler<M>, M: Model<V>>(before: Context<V, M>, entity: Entity, offered: Event<M>, restore: bool, mid: Context<V, M>, between: Event<M>, last: Context<V, M>, after: Context<V, M>, answered: Event<M>)
    requires
        delivery(before, entity, offered, restore, mid, between, last, after, answered),
    ensures
        view_offered(before, entity, offered, mid, between),
        models_offered(mid, entity, between, last, answered),
        !before.views.contains(entity) ==> mid == before && between == offered,
        !mid.data.contains(entity) ==> last == mid && answered == between,
        after.event_queue == last.event_queue,
        after.views == last.views,
        after.data == last.data,
        restore ==> after.current == before.current,
{
}

/// The events of a flush are handled one after the other, in the order in which
/// they were queued: the first is dispatched from the context with its queue
/// emptied, each one from the context that the one before it left, and each as it
/// was queued, whatever became of the events before it. The context after the
/// flush is what the last one left.
pub proof fn lemma_flush_order<V: ViewHandler<M>, M: Model<V>>(queued: Seq<Event<M>>, log: Seq<Vec<Delivery>>, handled: Seq<Event<M>>, start: Context<V, M>, end: Context<V, M>, contexts: Seq<Context<V, M>>, i: int)
    requires
        is_flush(queued, log, handled, start, end, contexts),
        0 <= i < queued.len(),
    ensures
        dispatched(log[i]@, contexts[i], queued[i], contexts[i + 1], handled[i]),
        i == 0 ==> contexts[i].same_but_queue(&start) && contexts[i].event_queue@ == Seq::<Event<M>>::empty(),
        i == queued.len() - 1 ==> contexts[i + 1] == end,
{
    assert(flush_step(queued, log, handled, contexts, i));
}

/// Every view leaves the context as it finds it when it is offered an event.
pub open spec fn views_keep_context<V: ViewHandler<M>, M>() -> bool {
    forall|v: V, found: Context<V, M>, offered: Event<M>, left: Context<V, M>, answered: Event<M>, after: V| #[trigger]
        v.handles(found, offered, left, answered, after) ==> left == found
}

/// Every model leaves the context as it finds it when it is offered an event.
pub open spec fn models_keep_context<V, M: Model<V>>() -> bool {
    forall|m: M, found: Context<V, M>, offered: Event<M>, left: Context<V, M>, answered: Event<M>, after: M| #[trigger]
        m.reacts(found, offered, left, answered, after) ==> left == found
}

/// `after` is well-formed and is `before` but for the current entity and for what
/// the views and the models are by now: the same entities have a view, and the
/// same entities have models.
pub open spec fn kept<V, M>(before: Context<V, M>, after: Context<V, M>) -> bool {
    &&& after.wf()
    &&& (Context { current: before.current, views: before.views, data: before.data, ..after })
        == before
    &&& forall|x: Entity| #[trigger] after.views.contains(x) == before.views.contains(x)
    &&& forall|x: Entity| #[trigger] after.data.contains(x) == before.data.contains(x)
}

/// A view that leaves the context as it finds it is put back where it was.
proof fn lemma_quiet_view<V: ViewHandler<M>, M>(before: Context<V, M>, entity: Entity, offered: Event<M>, after: Context<V, M>, answered: Event<M>)
    requires
        before.wf(),
        views_keep_context::<V, M>(),
        view_offered(before, entity, offered, after, answered),
    ensures
        kept(before, after),
{
    if before.views.contains(entity) {
        let (found, left, view) = choose|found: Context<V, M>, left: Context<V, M>, view: V| #[trigger]
            view_handled(before, entity, offered, found, left, view, after, answered);
        assert(before.views.value(entity).handles(found, offered, left, answered, view));
        assert(left == found);
        assert(before.entity_manager.is_alive_spec(entity));
        assert forall|x: Entity| #[trigger] after.views.contains(x) == before.views.contains(x) by {
            if before.views.contains(x) {
                before.entity_manager.lemma_alive(entity, x);
            }
        }
    }
}

/// Models that leave the context as they find it leave it, turn after turn, as
/// the first found it, but for the current entity.
proof fn lemma_quiet_turns<V, M: Model<V>>(entity: Entity, original: Seq<ModelEntry<M>>, reacted: Seq<ModelEntry<M>>, contexts: Seq<Context<V, M>>, events: Seq<Event<M>>, k: int)
    requires
        models_keep_context::<V, M>(),
        contexts.len() == original.len() + 1,
        forall|j: int|
            0 <= j < original.len() ==> #[trigger] model_step(entity, original, reacted, contexts, events, j),
        0 <= k <= original.len(),
    ensures
        (Context { current: contexts[0].current, ..contexts[k] }) == contexts[0],
    decreases k,
{
    if k > 0 {
        lemma_quiet_turns(entity, original, reacted, contexts, events, k - 1);
        assert(model_step(entity, original, reacted, contexts, events, k - 1));
    }
}

/// Models that leave the context as they find it are put back where they were.
proof fn lemma_quiet_models<V, M: Model<V>>(before: Context<V, M>, entity: Entity, offered: Event<M>, after: Context<V, M>, answered: Event<M>)
    requires
        before.wf(),
        models_keep_context::<V, M>(),
        models_offered(before, entity, offered, after, answered),
    ensures
        kept(before, after),
{
    if before.data.contains(entity) {
        let (reacted, contexts, events) = choose|reacted: Seq<ModelEntry<M>>, contexts: Seq<Context<V, M>>, events: Seq<Event<M>>| #[trigger]
            models_handled(before, entity, offered, reacted, contexts, events, after, answered);
        let original = before.data.value(entity)@;
        lemma_quiet_turns(entity, original, reacted, contexts, events, original.len() as int);
        assert(before.entity_manager.is_alive_spec(entity));
        assert forall|x: Entity| #[trigger] after.data.contains(x) == before.data.contains(x) by {
            if before.data.contains(x) {
                before.entity_manager.lemma_alive(entity, x);
            }
        }
    }
}

/// A delivery to handlers that leave the context as they find it keeps it.
proof fn lemma_quiet_delivery<V: ViewHandler<M>, M: Model<V>>(before: Context<V, M>, entity: Entity, offered: Event<M>, restore: bool, after: Context<V, M>, answered: Event<M>)
    requires
        before.wf(),
        views_keep_context::<V, M>(),
        models_keep_context::<V, M>(),
        delivered(before, entity, offered, restore, after, answered),
    ensures
        kept(before, after),
{
    let (mid, between, last) = choose|mid: Context<V, M>, between: Event<M>, last: Context<V, M>| #[trigger]
        delivery(before, entity, offered, restore, mid, between, last, after, answered);
    lemma_quiet_view(before, entity, offered, mid, between);
    lemma_quiet_models(mid, entity, between, last, answered);
}

/// The first `k` deliveries of a dispatch to handlers that leave the context as
/// they find it keep it.
proof fn lemma_quiet_deliveries<V: ViewHandler<M>, M: Model<V>>(block: Seq<Delivery>, start: Context<V, M>, offered: Event<M>, end: Context<V, M>, answered: Event<M>, contexts: Seq<Context<V, M>>, events: Seq<Event<M>>, k: int)
    requires
        start.wf(),
        views_keep_context::<V, M>(),
        models_keep_context::<V, M>(),
        is_dispatch(block, start, offered, end, answered, contexts, events),
        0 <= k <= block.len(),
    ensures
        kept(start, contexts[k]),
    decreases k,
{
    if k > 0 {
        lemma_quiet_deliveries(block, start, offered, end, answered, contexts, events, k - 1);
        assert(dispatch_step(block, contexts, events, k - 1));
        lemma_quiet_delivery(
            contexts[k - 1],
            block[k - 1].entity,
            events[k - 1],
            k - 1 > 0,
            contexts[k],
            events[k],
        );
    }
}

/// The first `i` events of a flush to handlers that leave the context as they
/// find it keep it as it was when the queue had been emptied.
proof fn lemma_quiet_events<V: ViewHandler<M>, M: Model<V>>(queued: Seq<Event<M>>, log: Seq<Vec<Delivery>>, handled: Seq<Event<M>>, start: Context<V, M>, end: Context<V, M>, contexts: Seq<Context<V, M>>, i: int)
    requires
        start.wf(),
        views_keep_context::<V, M>(),
        models_keep_context::<V, M>(),
        is_flush(queued, log, handled, start, end, contexts),
        0 <= i <= queued.len(),
    ensures
        kept(contexts[0], contexts[i]),
    decreases i,
{
    if i > 0 {
        lemma_quiet_events(queued, log, handled, start, end, contexts, i - 1);
        assert(flush_step(queued, log, handled, contexts, i - 1));
        let block = log[i - 1]@;
        let (cs, es) = choose|cs: Seq<Context<V, M>>, es: Seq<Event<M>>| #[trigger]
            is_dispatch(block, contexts[i - 1], queued[i - 1], contexts[i], handled[i - 1], cs, es);
        lemma_quiet_deliveries(
            block,
            contexts[i - 1],
            queued[i - 1],
            contexts[i],
            handled[i - 1],
            cs,
            es,
            block.len() as int,
        );
    }
}

/// Where no handler changes the context, a flush changes nothing but the queue,
/// the current entity, and what the views and the models are by now: the queue is
/// empty afterwards, every queued event having been taken off it; and the views
/// and the models are put back, so that the same entities have a view and the
/// same entities have models as before. Tree, cache, style and lenses are as they
/// were.
pub proof fn lemma_quiet_flush<V: ViewHandler<M>, M: Model<V>>(queued: Seq<Event<M>>, log: Seq<Vec<Delivery>>, handled: Seq<Event<M>>, start: Context<V, M>, end: Context<V, M>, contexts: Seq<Context<V, M>>)
    requires
        start.wf(),
        views_keep_context::<V, M>(),
        models_keep_context::<V, M>(),
        is_flush(queued, log, handled, start, end, contexts),
    ensures
        end.wf(),
        end.event_queue@ == Seq::<Event<M>>::empty(),
        end.same_but_queue(
            &(Context { current: end.current, views: end.views, data: end.data, ..start }),
        ),
        forall|x: Entity| #[trigger] end.views.contains(x) == start.views.contains(x),
        forall|x: Entity| #[trigger] end.data.contains(x) == start.data.contains(x),
{
    lemma_quiet_events(queued, log, handled, start, end, contexts, queued.len() as int);
}

/// The entities that an event for `target` is offered to if nobody consumes it.
pub fn propagation_path(tree: &Tree, target: Entity, propagation: Propagation) -> (path: Vec<Entity>)
    requires
        tree.wf(),
    ensures
        path@ == path_of(tree, target, propagation),
        path@.len() >= 1,
        path@[0] == target,
{
    match propagation {
        Propagation::Up => {
            let chain = tree.ancestors(target);
            if chain.len() > 0 {
                proof {
                    crate::tree::lemma_line_of(tree@, target);
                    crate::tree::lemma_ancestors_from(tree@, crate::tree::line_of(tree@, target));
                }
                return chain;
            }
            proof {
                crate::tree::lemma_line_of(tree@, target);
                if tree.contains(target) {
                    crate::tree::lemma_ancestors_from(tree@, crate::tree::line_of(tree@, target));
                }
            }
        },
        Propagation::Direct => {},
    }
    let mut path: Vec<Entity> = Vec::new();
    path.push(target);
    assert(path@ =~= seq![target]);
    path
}

/// Dispatches events to widgets.
///
/// The event manager takes the events that are queued in the context and offers
/// each to the views and models along its path. It keeps a copy of the tree as it
/// was when the flush began, the events it has handled, and a record of whom each
/// event was offered to.
pub struct EventManager<M> {
    /// The events of the last flush, as their handlers left them.
    pub event_queue: Vec<Event<M>>,
    /// The tree as it was when the last flush began.
    pub tree: Tree,
    /// Whom each event of the last flush was offered to, in order.
    pub deliveries: Vec<Vec<Delivery>>,
}

impl<M> EventManager<M> {
    /// An event manager that has handled nothing yet.
    pub fn new() -> (m: Self)
        ensures
            m.event_queue@ == Seq::<Event<M>>::empty(),
            m.deliveries@ == Seq::<Vec<Delivery>>::empty(),
            m.tree.wf(),
            m.tree@ == seq![crate::tree::Node { entity: Entity::spec_root(), depth: 0 }],
    {
        EventManager { event_queue: Vec::new(), tree: Tree::new(), deliveries: Vec::new() }
    }

    /// Offers `event` to the view of `entity`, if it has one: the view is taken out
    /// of the context for the call, with `entity` as the current entity, and put
    /// back afterwards if the entity is still live. Returns whether the entity had
    /// a view.
    #[verifier::rlimit(50)]
    fn offer_to_view<V: ViewHandler<M>>(cx: &mut Context<V, M>, entity: Entity, event: &mut Event<M>) -> (had_view: bool)
        requires
            old(cx).wf(),
        ensures
            final(cx).wf(),
            had_view == old(cx).views.contains(entity),
            view_offered(*old(cx), entity, *old(event), *final(cx), *final(event)),
    {
        match cx.views.remove(entity) {
            Some(view) => {
                let mut view = view;
                cx.current = entity;
                let ghost found = *cx;
                view.event(cx, event);
                let ghost left = *cx;
                if cx.entity_manager.is_alive(entity) {
                    proof {
                        cx.entity_manager.lemma_alive(entity, entity);
                    }
                    let _ = cx.views.insert(entity, view);
                }
                proof {
                    assert(view_handled(
                        *old(cx),
                        entity,
                        *old(event),
                        found,
                        left,
                        view,
                        *cx,
                        *event,
                    ));
                }
                true
            },
            None => false,
        }
    }

    /// Offers `event` to the models of `entity`, if it has a store, in the order
    /// of the store: the store is taken out of the context for the calls, each made
    /// with `entity` as the current entity, and put back afterwards if the entity
    /// is still live.
    #[verifier::rlimit(50)]
    fn offer_to_models<V>(cx: &mut Context<V, M>, entity: Entity, event: &mut Event<M>) where
        M: Model<V>,

        requires
            old(cx).wf(),
        ensures
            final(cx).wf(),
            models_offered(*old(cx), entity, *old(event), *final(cx), *final(event)),
    {
        match cx.data.remove(entity) {
            Some(models) => {
                let mut models = models;
                let ghost original = models@;
                let ghost mut contexts: Seq<Context<V, M>> = seq![*cx];
                let ghost mut events: Seq<Event<M>> = seq![*event];
                let ghost first = *cx;
                let mut k: usize = 0;
                while k < models.len()
                    invariant
                        cx.wf(),
                        k <= models.len(),
                        models@.len() == original.len(),
                        contexts.len() == k + 1,
                        events.len() == k + 1,
                        contexts[0] == first,
                        events[0] == *old(event),
                        contexts.last() == *cx,
                        events.last() == *event,
                        forall|j: int|
                            0 <= j < k ==> #[trigger] model_step(entity, original, models@, contexts, events, j),
                        forall|j: int| k <= j < original.len() ==> models@[j] == original[j],
                    decreases models.len() - k,
                {
                    let ghost models_before = models@;
                    let ghost contexts_before = contexts;
                    let ghost events_before = events;
                    cx.current = entity;
                    models[k].model.event(cx, event);
                    proof {
                        contexts = contexts.push(*cx);
                        events = events.push(*event);
                        assert forall|j: int| 0 <= j < k + 1 implies #[trigger] model_step(
                            entity,
                            original,
                            models@,
                            contexts,
                            events,
                            j,
                        ) by {
                            if j < k {
                                assert(model_step(
                                    entity,
                                    original,
                                    models_before,
                                    contexts_before,
                                    events_before,
                                    j,
                                ));
                                assert(models@[j] == models_before[j]);
                            }
                        }
                    }
                    k += 1;
                }
                if cx.entity_manager.is_alive(entity) {
                    proof {
                        cx.entity_manager.lemma_alive(entity, entity);
                    }
                    let _ = cx.data.insert(entity, models);
                }
                proof {
                    assert(models_handled(
                        *old(cx),
                        entity,
                        *old(event),
                        models@,
                        contexts,
                        events,
                        *cx,
                        *event,
                    ));
                }
            },
            None => {},
        }
    }

    /// Offers `event` to the view and then to the models of `entity`, each taken
    /// out of the context for the call and put back afterwards if the entity is
    /// still live. `cx.current` is `entity` during the calls and is put back to what
    /// it was if `restore` is set. Returns whether the entity had a view.
    #[verifier::rlimit(50)]
    pub fn deliver<V: ViewHandler<M>>(cx: &mut Context<V, M>, entity: Entity, event: &mut Event<M>, restore: bool) -> (had_view: bool) where
        M: Model<V>,

        requires
            old(cx).wf(),
        ensures
            final(cx).wf(),
            had_view == old(cx).views.contains(entity),
            restore ==> final(cx).current == old(cx).current,
            !old(cx).views.contains(entity) && !old(cx).data.contains(entity) ==> *final(cx) == *old(cx) && *final(event) == *old(event),
            delivered(*old(cx), entity, *old(event), restore, *final(cx), *final(event)),
    {
        let previous: Entity = cx.current;
        let had_view: bool = Self::offer_to_view(cx, entity, event);
        let ghost mid = *cx;
        let ghost between = *event;
        Self::offer_to_models(cx, entity, event);
        let ghost last = *cx;
        if restore {
            cx.current = previous;
        }
        proof {
            assert(delivery(
                *old(cx),
                entity,
                *old(event),
                restore,
                mid,
                between,
                last,
                *cx,
                *event,
            ));
        }
        had_view
    }

    /// Offers `event` along its path in `tree`: to the target, then, where the
    /// event travels upwards, to each ancestor in turn, stopping after the first
    /// entity that leaves the event consumed. The path is the one that the event
    /// asks for when the call begins. Returns the record of the deliveries.
    #[verifier::rlimit(50)]
    pub fn dispatch<V: ViewHandler<M>>(cx: &mut Context<V, M>, tree: &Tree, event: &mut Event<M>, index: usize) -> (block: Vec<Delivery>) where
        M: Model<V>,

        requires
            old(cx).wf(),
            tree.wf(),
        ensures
            final(cx).wf(),
            is_block(block@, path_of(tree, old(event).target, old(event).propagation), index as int),
            block@.last().consumed == final(event).consumed,
            forall|k: int| 0 <= k < block@.len() ==> (#[trigger] block@[k]).trace == old(event).trace,
            nobody_home(old(cx)) ==> *final(cx) == *old(cx) && *final(event) == *old(event),
            dispatched(block@, *old(cx), *old(event), *final(cx), *final(event)),
    {
        let trace: bool = event.trace;
        let path: Vec<Entity> = propagation_path(tree, event.target, event.propagation);
        let mut block: Vec<Delivery> = Vec::new();
        let mut k: usize = 0;
        let mut consumed: bool = false;
        let ghost mut contexts: Seq<Context<V, M>> = seq![*cx];
        let ghost mut events: Seq<Event<M>> = seq![*event];
        while k < path.len() && !consumed
            invariant
                cx.wf(),
                k <= path.len(),
                path@.len() >= 1,
                block@.len() == k,
                k == 0 ==> !consumed,
                forall|j: int|
                    0 <= j < k ==> (#[trigger] block@[j]).entity == path@[j] && block@[j].event
                        == index,
                forall|j: int| 0 <= j < k - 1 ==> !(#[trigger] block@[j]).consumed,
                forall|j: int| 0 <= j < k ==> (#[trigger] block@[j]).trace == trace,
                k > 0 ==> block@[k - 1].consumed == consumed,
                k > 0 ==> consumed == event.consumed,
                nobody_home(old(cx)) ==> *cx == *old(cx) && *event == *old(event),
                is_dispatch(block@, *old(cx), *old(event), *cx, *event, contexts, events),
            decreases path.len() - k,
        {
            let entity: Entity = path[k];
            let ghost block_before = block@;
            let ghost contexts_before = contexts;
            let ghost events_before = events;
            let had_view: bool = Self::deliver(cx, entity, event, k > 0);
            consumed = event.consumed;
            block.push(Delivery { event: index, entity, had_view, consumed, trace });
            proof {
                contexts = contexts.push(*cx);
                events = events.push(*event);
                assert forall|j: int| 0 <= j < block@.len() implies #[trigger] dispatch_step(
                    block@,
                    contexts,
                    events,
                    j,
                ) by {
                    if j < k {
                        assert(dispatch_step(block_before, contexts_before, events_before, j));
                    }
                }
            }
            k += 1;
        }
        block
    }

    /// Takes every event that is queued in the context and handles them in the
    /// order in which they were queued. What handlers queue meanwhile stays in the
    /// context for the next flush.
    ///
    /// An event that carries a request to the frame loop is first copied into the
    /// list that is returned. Then it is dispatched along its path in the tree as
    /// it was when the flush began.
    #[verifier::rlimit(50)]
    pub fn flush_events<V: ViewHandler<M>>(&mut self, context: &mut Context<V, M>) -> (app_events: Vec<Event<M>>) where
        M: Model<V>,

        requires
            old(context).wf(),
        ensures
            final(context).wf(),
            app_events@ == app_requests(old(context).event_queue@),
            final(self).tree@ == old(context).tree@,
            final(self).event_queue@.len() == old(context).event_queue@.len(),
            is_trace(final(self).deliveries@, routes(old(context).event_queue@), &final(self).tree),
            nobody_home(old(context)) ==> final(context).same_but_queue(old(context)) && final(context).event_queue@ == Seq::<Event<M>>::empty() && final(self).event_queue@ == old(context).event_queue@,
            exists|contexts: Seq<Context<V, M>>| #[trigger]
                is_flush(
                    old(context).event_queue@,
                    final(self).deliveries@,
                    final(self).event_queue@,
                    *old(context),
                    *final(context),
                    contexts,
                ),
    {
        self.event_queue.clear();
        self.deliveries.clear();
        let mut pending: VecDeque<Event<M>> = VecDeque::new();
        std::mem::swap(&mut pending, &mut context.event_queue);
        let count: usize = pending.len();
        self.tree = context.tree.snapshot();
        let ghost all = old(context).event_queue@;
        let ghost tree = self.tree;
        let mut app_events: Vec<Event<M>> = Vec::new();
        let mut i: usize = 0;
        let ghost mut contexts: Seq<Context<V, M>> = seq![*context];
        proof {
            assert(all.take(0) =~= Seq::<Event<M>>::empty());
            assert(routes(all.take(0)) =~= Seq::<(Entity, Propagation)>::empty());
            assert(all.skip(0) =~= all);
        }
        while pending.len() > 0
            invariant
                context.wf(),
                self.tree == tree,
                tree.wf(),
                tree@ == old(context).tree@,
                i + pending@.len() == all.len(),
                all.len() == count,
                pending@ == all.skip(i as int),
                self.event_queue@.len() == i,
                nobody_home(old(context)) ==> context.same_but_queue(old(context))
                    && context.event_queue@ == Seq::<Event<M>>::empty() && self.event_queue@
                    == all.take(i as int),
                app_events@ == app_requests(all.take(i as int)),
                is_trace(self.deliveries@, routes(all.take(i as int)), &tree),
                self.deliveries@.len() == i,
                is_flush(
                    all.take(i as int),
                    self.deliveries@,
                    self.event_queue@,
                    *old(context),
                    *context,
                    contexts,
                ),
            decreases pending@.len(),
        {
            let mut event: Event<M> = pending.pop_front().unwrap();
            proof {
                assert(event == all[i as int]);
                assert(all.take(i + 1).drop_last() =~= all.take(i as int));
                assert(all.take(i + 1).last() == all[i as int]);
                assert(pending@ =~= all.skip(i + 1));
                assert(routes(all.take(i + 1)).drop_last() =~= routes(all.take(i as int)));
                assert(routes(all.take(i + 1)).last() == (event.target, event.propagation));
            }
            match event.get_app_request() {
                Some(app_event) => {
                    app_events.push(
                        Event::new(Message::App(app_event)).target(event.target).origin(event.origin),
                    );
                },
                None => {},
            }
            let ghost log_before = self.deliveries@;
            let ghost handled_before = self.event_queue@;
            let ghost contexts_before = contexts;
            let block: Vec<Delivery> = Self::dispatch(context, &self.tree, &mut event, i);
            self.deliveries.push(block);
            proof {
                let now = routes(all.take(i + 1));
                let before = routes(all.take(i as int));
                assert(now.len() == i + 1);
                assert forall|k: int| 0 <= k < self.deliveries@.len() implies is_block(
                    (#[trigger] self.deliveries@[k])@,
                    path_of(&tree, now[k].0, now[k].1),
                    k,
                ) by {
                    if k < i {
                        assert(self.deliveries@[k] == log_before[k]);
                        assert(now[k] == before[k]);
                    }
                }
            }
            self.event_queue.push(event);
            proof {
                if nobody_home(old(context)) {
                    assert(self.event_queue@ =~= all.take(i + 1));
                }
                contexts = contexts.push(*context);
                assert forall|j: int| 0 <= j < i + 1 implies #[trigger] flush_step(
                    all.take(i + 1),
                    self.deliveries@,
                    self.event_queue@,
                    contexts,
                    j,
                ) by {
                    if j < i {
                        assert(flush_step(
                            all.take(i as int),
                            log_before,
                            handled_before,
                            contexts_before,
                            j,
                        ));
                        assert(all.take(i + 1)[j] == all.take(i as int)[j]);
                    }
                }
            }
            i += 1;
        }
        proof {
            assert(all.take(i as int) =~= all);
        }
        app_events
    }
}

} // verus!
