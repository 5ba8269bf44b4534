use crate::binding::{lemma_merged, merged, Data, LensState, ModelEntry};
use crate::storage::{put_in, taken_out, SparseSet};
use crate::tree::TreeError;
use crate::cache::{BoundingBox, CacheRow};
use crate::context::{Context, Enviroment, Model, ViewHandler};
use crate::entity::Entity;
use crate::events::event::{Event, Message, MouseButton, MouseButtonState, Propagation, WindowEvent};
use crate::events::event_manager::{app_requests, is_flush, is_trace, routes, EventManager};
use crate::hover_system::{apply_hover, entity_under, hover_events};
use crate::layout::geometry_changed;
use crate::mouse::{Modifiers, MouseButtonData, MouseState};
use crate::style::{Color, PositionType, Property, Units};
use crate::style::StyleRow;
use crate::style_system::{
    any_geometry_change, any_paint_change, apply_clipping, apply_inherited, apply_styles,
    apply_transform, derived_row, effective_clip, effective_transform, resolution,
};
use vstd::prelude::*;

verus! {

/// Application-level requests that handlers raise for the frame loop itself.
#[derive(Clone, Copy, Debug, PartialEq, Eq, Structural)]
pub enum AppEvent {
    CreateWindow,
}

/// How the first window is to look.
#[derive(Debug)]
pub struct WindowDescription {
    pub title: String,
    pub width: u32,
    pub height: u32,
}

impl WindowDescription {
    /// The description of a window without a title, 800 by 600.
    pub fn new() -> (d: Self)
        ensures
            d.title@ == Seq::<char>::empty(),
            d.width == 800,
            d.height == 600,
    {
        WindowDescription { title: String::new(), width: 800, height: 600 }
    }

    /// The description with the title `title`.
    pub fn with_title(self, title: &str) -> (d: Self)
        ensures
            d.title@ == title@,
            d.width == self.width,
            d.height == self.height,
    {
        WindowDescription { title: title.to_owned(), width: self.width, height: self.height }
    }

    /// The description with the inner size `width` by `height`.
    pub fn with_inner_size(self, width: u32, height: u32) -> (d: Self)
        ensures
            d.title == self.title,
            d.width == width,
            d.height == height,
    {
        WindowDescription { title: self.title, width, height }
    }
}

/// A length of the platform as a length of the layout: itself, or the largest
/// length there is where it does not fit.
pub open spec fn to_length(v: u32) -> i32 {
    if v > i32::MAX {
        i32::MAX
    } else {
        v as i32
    }
}

/// A length of the platform as a length of the layout.
#[verifier::when_used_as_spec(to_length)]
pub fn length(v: u32) -> (r: i32)
    ensures
        r == to_length(v),
{
    if v > i32::MAX as u32 {
        i32::MAX
    } else {
        v as i32
    }
}

/// The steps of a frame, in the order in which they are taken.
#[derive(Clone, Copy, Debug, PartialEq, Eq, Structural)]
pub enum FramePhase {
    /// Build the interface anew if the environment asks for it.
    Rebuild,
    /// The interface was built: the environment no longer asks for it.
    Built,
    /// Hand pending fonts to the drawing surface.
    Resources,
    /// Handle the events that are queued, one flush at a time.
    Events,
    /// Act on the requests that the last flush collected.
    AppEvents,
    /// Look through the lenses and rebuild the observers of those that changed.
    Binding,
    /// Resolve styles and what follows from them along the tree.
    Styling,
    /// Have positions and sizes computed.
    Layout,
    /// Report the bounds that changed.
    Geometry,
    /// Wake the loop if events are waiting.
    Wake,
    /// Compute the transforms, find the hovered entity, compute the clip rectangles.
    Hover,
    /// Ask for the windows to be painted.
    Redraw,
    /// Give the application its idle time.
    Idle,
    /// Wake the loop if the idle time left events waiting.
    AfterIdle,
    /// End the frame.
    End,
}

/// What the caller of [`Application::advance`] has to do before it calls again.
#[derive(Clone, Copy, Debug, PartialEq, Eq, Structural)]
pub enum FrameAction {
    /// Nothing; call again.
    Continue,
    /// Call the builder of the interface with the context.
    Build,
    /// Hand every pending font to the drawing surface and record the handles.
    LoadFonts,
    /// Create the window that the given entity asked for.
    CreateWindow(Entity),
    /// Run the layout solver on tree, style and cache.
    Layout,
    /// Post an event that wakes the loop.
    Wake,
    /// Ask the platform to repaint.
    RequestRedraw,
    /// Call the idle hook with the context.
    Idle,
    /// The frame is complete.
    Done,
}

/// The flags after style resolution, where `geometry` and `paint` say whether some
/// style changed in what decides placement and in what only decides painting.
pub open spec fn flags_after_styling(flags: (bool, bool, bool), geometry: bool, paint: bool) -> (bool, bool, bool) {
    if flags.0 {
        (false, flags.1 || geometry, flags.2 || paint)
    } else {
        flags
    }
}

/// The flags after the layout step.
pub open spec fn flags_after_layout(flags: (bool, bool, bool)) -> (bool, bool, bool) {
    (flags.0, false, flags.2)
}

/// The flags after the redraw step.
pub open spec fn flags_after_redraw(flags: (bool, bool, bool)) -> (bool, bool, bool) {
    (flags.0, flags.1, false)
}

/// A frame that starts with styles asked for, and in which nothing asks for
/// anything besides what the steps themselves ask for, ends with nothing asked for.
/// On the way, layout is asked for exactly if it was asked for at the start or a
/// style changed in what decides placement, and painting exactly if it was asked
/// for at the start or a style changed in what only decides painting; no step asks
/// for a step that comes before it.
pub proof fn lemma_frame_clears_flags(flags: (bool, bool, bool), geometry: bool, paint: bool)
    requires
        flags.0,
    ensures
        flags_after_styling(flags, geometry, paint) == (false, flags.1 || geometry, flags.2 || paint),
        flags_after_layout(flags_after_styling(flags, geometry, paint)) == (
            false,
            false,
            flags.2 || paint,
        ),
        flags_after_redraw(flags_after_layout(flags_after_styling(flags, geometry, paint))) == (
            false,
            false,
            false,
        ),
{
}

/// One window of the platform and the entity that stands for it.
#[derive(Clone, Copy, Debug, PartialEq, Eq, Structural)]
pub struct WindowEntry {
    pub key: u64,
    pub entity: Entity,
}

/// The entity registered for the window `key`, if there is one; the latest
/// registration counts.
pub open spec fn window_lookup(windows: Seq<WindowEntry>, key: u64) -> Option<Entity>
    decreases windows.len(),
{
    if windows.len() == 0 {
        None
    } else if windows.last().key == key {
        Some(windows.last().entity)
    } else {
        window_lookup(windows.drop_last(), key)
    }
}

/// The looks at one model: every lens in turn, each given by its place.
pub open spec fn model_looks<M>(model: M, lenses: int) -> Seq<(M, int)> {
    Seq::new(lenses as nat, |l: int| (model, l))
}

/// The looks at the models of one store: model after model in the order of the
/// store, each looked at by every lens.
pub open spec fn store_looks<M>(models: Seq<ModelEntry<M>>, lenses: int) -> Seq<(M, int)>
    decreases models.len(),
{
    if models.len() == 0 {
        Seq::empty()
    } else {
        store_looks(models.drop_last(), lenses) + model_looks(models.last().model, lenses)
    }
}

/// The looks at the models of the first `stores` stores, in the order in which the
/// entities got their stores.
pub open spec fn all_looks<M>(data: SparseSet<Vec<ModelEntry<M>>>, stores: int, lenses: int) -> Seq<(M, int)>
    decreases stores,
{
    if stores <= 0 {
        Seq::empty()
    } else {
        all_looks(data, stores - 1, lenses) + store_looks(
            data.value(data.keys()[stores - 1])@,
            lenses,
        )
    }
}

/// The `t`-th look of a run: the lens at the look's place looks at the look's
/// model, which leaves it as the next state has it and every other lens as it
/// was; where the lens reports a change its observers are added to the list, each
/// that is not yet listed, and otherwise the list stays as it is.
pub open spec fn look_step<M: Data>(looks: Seq<(M, int)>, lenses: Seq<Seq<LensState<M>>>, lists: Seq<Seq<Entity>>, changes: Seq<bool>, t: int) -> bool {
    let model = looks[t].0;
    let l = looks[t].1;
    &&& 0 <= l < lenses[t].len()
    &&& lenses[t + 1] == lenses[t].update(l, lenses[t + 1][l])
    &&& LensState::looked(lenses[t][l], model, lenses[t + 1][l], changes[t])
    &&& lists[t + 1] == if changes[t] {
        merged(lists[t], lenses[t][l].observers@)
    } else {
        lists[t]
    }
}

/// `lenses`, `lists` and `changes` are the course of a run of `looks`: the lenses
/// and the list of entities to rebuild before and after every look, and what every
/// look reported. The run begins with the lenses `start` and an empty list, and
/// ends with the lenses `end` and the list `rebuild`.
pub open spec fn is_run<M: Data>(looks: Seq<(M, int)>, start: Seq<LensState<M>>, end: Seq<LensState<M>>, rebuild: Seq<Entity>, lenses: Seq<Seq<LensState<M>>>, lists: Seq<Seq<Entity>>, changes: Seq<bool>) -> bool {
    &&& lenses.len() == looks.len() + 1
    &&& lists.len() == looks.len() + 1
    &&& changes.len() == looks.len()
    &&& lenses[0] == start
    &&& lists[0] == Seq::<Entity>::empty()
    &&& lenses.last() == end
    &&& lists.last() == rebuild
    &&& forall|t: int| 0 <= t < looks.len() ==> #[trigger] look_step(looks, lenses, lists, changes, t)
}

/// The `u`-th look of a run reported a change, and `x` observed the lens that
/// looked.
pub open spec fn reported<M>(looks: Seq<(M, int)>, lenses: Seq<Seq<LensState<M>>>, changes: Seq<bool>, u: int, x: Entity) -> bool {
    changes[u] && lenses[u][looks[u].1].observers@.contains(x)
}

/// One of the first `t` looks of a run reported a change to `x`.
pub open spec fn told<M>(looks: Seq<(M, int)>, lenses: Seq<Seq<LensState<M>>>, changes: Seq<bool>, t: int, x: Entity) -> bool {
    exists|u: int| 0 <= u < t && #[trigger] reported(looks, lenses, changes, u, x)
}

/// After the first `t` looks of a run the list holds every entity once at most,
/// and it holds an entity exactly if one of these looks reported a change to it.
pub proof fn lemma_run_lists<M: Data>(looks: Seq<(M, int)>, start: Seq<LensState<M>>, end: Seq<LensState<M>>, rebuild: Seq<Entity>, lenses: Seq<Seq<LensState<M>>>, lists: Seq<Seq<Entity>>, changes: Seq<bool>, t: int)
    requires
        is_run(looks, start, end, rebuild, lenses, lists, changes),
        0 <= t <= looks.len(),
    ensures
        lists[t].no_duplicates(),
        forall|x: Entity| #[trigger] lists[t].contains(x) == told(looks, lenses, changes, t, x),
    decreases t,
{
    if t > 0 {
        lemma_run_lists(looks, start, end, rebuild, lenses, lists, changes, t - 1);
        assert(look_step(looks, lenses, lists, changes, t - 1));
        let observers = lenses[t - 1][looks[t - 1].1].observers@;
        lemma_merged(lists[t - 1], observers);
        assert forall|x: Entity| #[trigger] lists[t].contains(x) == told(looks, lenses, changes, t, x) by {
            if told(looks, lenses, changes, t, x) {
                let u = choose|u: int| 0 <= u < t && #[trigger] reported(looks, lenses, changes, u, x);
                if u < t - 1 {
                    assert(told(looks, lenses, changes, t - 1, x));
                    assert(lists[t - 1].contains(x));
                }
            }
            if lists[t].contains(x) {
                if lists[t - 1].contains(x) {
                    assert(told(looks, lenses, changes, t - 1, x));
                    let u = choose|u: int| 0 <= u < t - 1 && #[trigger] reported(looks, lenses, changes, u, x);
                    assert(reported(looks, lenses, changes, u, x));
                } else {
                    assert(reported(looks, lenses, changes, t - 1, x));
                }
            }
        }
    }
}

/// However many models show a change through a lens, and through however many
/// lenses an entity watches, a run of looks lists the entity to rebuild once at
/// most; it lists exactly the observers of the lenses that reported a change, and
/// nobody where no look reported one.
pub proof fn lemma_run_rebuilds_once<M: Data>(looks: Seq<(M, int)>, start: Seq<LensState<M>>, end: Seq<LensState<M>>, rebuild: Seq<Entity>, lenses: Seq<Seq<LensState<M>>>, lists: Seq<Seq<Entity>>, changes: Seq<bool>)
    requires
        is_run(looks, start, end, rebuild, lenses, lists, changes),
    ensures
        rebuild.no_duplicates(),
        forall|x: Entity| #[trigger]
            rebuild.contains(x) == told(looks, lenses, changes, looks.len() as int, x),
        (forall|u: int| 0 <= u < looks.len() ==> !#[trigger] changes[u]) ==> rebuild
            == Seq::<Entity>::empty(),
{
    lemma_run_lists(looks, start, end, rebuild, lenses, lists, changes, looks.len() as int);
    if forall|u: int| 0 <= u < looks.len() ==> !#[trigger] changes[u] {
        assert forall|x: Entity| !rebuild.contains(x) by {
            if rebuild.contains(x) {
                let u = choose|u: int|
                    0 <= u < looks.len() && #[trigger] reported(looks, lenses, changes, u, x);
                assert(changes[u]);
            }
        }
        if rebuild.len() > 0 {
            assert(rebuild.contains(rebuild[0]));
        }
        assert(rebuild =~= Seq::<Entity>::empty());
    }
}

/// A rebuild gives every observer of its list one turn, in the order of the list:
/// the course has one step for each, and the step of the `i`-th is the turn of the
/// `i`-th.
pub proof fn lemma_rebuild_turns<V: ViewHandler<M>, M>(observers: Seq<Entity>, start: Context<V, M>, end: Context<V, M>, states: Seq<Context<V, M>>, i: int)
    requires
        is_rebuild(observers, start, end, states),
        0 <= i < observers.len(),
    ensures
        states.len() == observers.len() + 1,
        rebuilt(states[i], observers[i], states[i + 1]),
        i == 0 ==> states[i] == start,
        i == observers.len() - 1 ==> states[i + 1] == end,
        !states[i].views.contains(observers[i]) ==> states[i + 1] == states[i],
{
    assert(rebuild_step(observers, states, i));
}

/// The entities whose views are to be rebuilt because a lens they watch shows
/// another value: looks through every lens at every model, in the order in which
/// entities got their stores, and collects the observers of each lens that reports
/// a change, every entity once.
#[verifier::rlimit(50)]
pub fn update_lenses<V, M: Data>(cx: &mut Context<V, M>) -> (observers: Vec<Entity>)
    requires
        old(cx).wf(),
    ensures
        final(cx).wf(),
        final(cx).same_but_lenses(old(cx)),
        final(cx).lenses@.len() == old(cx).lenses@.len(),
        forall|l: int|
            0 <= l < old(cx).lenses@.len() ==> (#[trigger] final(cx).lenses@[l]).id == old(cx).lenses@[l].id && final(cx).lenses@[l].observers == old(cx).lenses@[l].observers,
        observers@.no_duplicates(),
        forall|x: Entity|
            observers@.contains(x) ==> exists|l: int|
                0 <= l < old(cx).lenses@.len() && (#[trigger] old(cx).lenses@[l]).observers@.contains(
                    x,
                ),
        exists|lenses: Seq<Seq<LensState<M>>>, lists: Seq<Seq<Entity>>, changes: Seq<bool>| #[trigger]
            is_run(
                all_looks(
                    old(cx).data,
                    old(cx).data.keys().len() as int,
                    old(cx).lenses@.len() as int,
                ),
                old(cx).lenses@,
                final(cx).lenses@,
                observers@,
                lenses,
                lists,
                changes,
            ),
{
    let mut observers: Vec<Entity> = Vec::new();
    let stores: usize = cx.data.len();
    let ghost data = cx.data;
    let ghost width = cx.lenses@.len() as int;
    let ghost mut done: Seq<(M, int)> = Seq::empty();
    let ghost mut states: Seq<Seq<LensState<M>>> = seq![cx.lenses@];
    let ghost mut lists: Seq<Seq<Entity>> = seq![Seq::<Entity>::empty()];
    let ghost mut changes: Seq<bool> = Seq::empty();
    let mut k: usize = 0;
    while k < stores
        invariant
            k <= stores,
            stores == cx.data.keys().len(),
            cx.wf(),
            cx.same_but_lenses(old(cx)),
            cx.lenses@.len() == old(cx).lenses@.len(),
            forall|l: int|
                0 <= l < old(cx).lenses@.len() ==> (#[trigger] cx.lenses@[l]).id == old(cx).lenses@[l].id && cx.lenses@[l].observers == old(cx).lenses@[l].observers,
            observers@.no_duplicates(),
            forall|x: Entity|
                observers@.contains(x) ==> exists|l: int|
                    0 <= l < old(cx).lenses@.len() && (#[trigger] old(cx).lenses@[l]).observers@.contains(x),
            data == old(cx).data,
            width == old(cx).lenses@.len(),
            done == all_looks(data, k as int, width),
            is_run(done, old(cx).lenses@, cx.lenses@, observers@, states, lists, changes),
        decreases stores - k,
    {
        let count: usize = cx.data.value_at(k).len();
        let ghost models = data.value(data.keys()[k as int])@;
        let ghost whole = done;
        let mut m: usize = 0;
        proof {
            assert(models.take(0) =~= Seq::<ModelEntry<M>>::empty());
            assert(done =~= whole + store_looks(models.take(0), width));
        }
        while m < count
            invariant
                k < stores,
                stores == cx.data.keys().len(),
                m <= count,
                count == cx.data.value(cx.data.keys()[k as int])@.len(),
                cx.wf(),
                cx.same_but_lenses(old(cx)),
                cx.lenses@.len() == old(cx).lenses@.len(),
                forall|l: int|
                    0 <= l < old(cx).lenses@.len() ==> (#[trigger] cx.lenses@[l]).id == old(cx).lenses@[l].id && cx.lenses@[l].observers == old(cx).lenses@[l].observers,
                observers@.no_duplicates(),
                forall|x: Entity|
                    observers@.contains(x) ==> exists|l: int|
                        0 <= l < old(cx).lenses@.len() && (#[trigger] old(cx).lenses@[l]).observers@.contains(x),
                data == old(cx).data,
                width == old(cx).lenses@.len(),
                models == data.value(data.keys()[k as int])@,
                whole == all_looks(data, k as int, width),
                done == whole + store_looks(models.take(m as int), width),
                is_run(done, old(cx).lenses@, cx.lenses@, observers@, states, lists, changes),
            decreases count - m,
        {
            let ghost part = done;
            let ghost subject = models[m as int].model;
            let mut l: usize = 0;
            proof {
                assert(model_looks(subject, width).take(0) =~= Seq::<(M, int)>::empty());
                assert(done =~= part + model_looks(subject, width).take(0));
            }
            while l < cx.lenses.len()
                invariant
                    k < stores,
                    stores == cx.data.keys().len(),
                    m < count,
                    count == cx.data.value(cx.data.keys()[k as int])@.len(),
                    l <= cx.lenses@.len(),
                    cx.wf(),
                    cx.same_but_lenses(old(cx)),
                    cx.lenses@.len() == old(cx).lenses@.len(),
                    forall|j: int|
                        0 <= j < old(cx).lenses@.len() ==> (#[trigger] cx.lenses@[j]).id == old(cx).lenses@[j].id && cx.lenses@[j].observers == old(cx).lenses@[j].observers,
                    observers@.no_duplicates(),
                    forall|x: Entity|
                        observers@.contains(x) ==> exists|j: int|
                            0 <= j < old(cx).lenses@.len() && (#[trigger] old(cx).lenses@[j]).observers@.contains(x),
                    data == old(cx).data,
                    width == old(cx).lenses@.len(),
                    models == data.value(data.keys()[k as int])@,
                    subject == models[m as int].model,
                    done == part + model_looks(subject, width).take(l as int),
                    is_run(done, old(cx).lenses@, cx.lenses@, observers@, states, lists, changes),
                decreases cx.lenses@.len() - l,
            {
                let model = &cx.data.value_at(k)[m].model;
                let ghost lenses_before = cx.lenses@;
                let ghost seen = observers@;
                proof {
                    lemma_merged(seen, cx.lenses@[l as int].observers@);
                }
                let changed: bool = cx.lenses[l].update_into(model, &mut observers);
                proof {
                    assert forall|j: int| 0 <= j < cx.lenses@.len() implies (
                    #[trigger] cx.lenses@[j]).wf() by {
                        if j != l {
                            assert(cx.lenses@[j] == lenses_before[j]);
                        } else {
                            assert(lenses_before[j].wf());
                        }
                    }
                    assert forall|x: Entity| observers@.contains(x) implies exists|j: int|
                        0 <= j < old(cx).lenses@.len() && (#[trigger] old(cx).lenses@[j]).observers@.contains(x) by {
                        if !seen.contains(x) {
                            assert(old(cx).lenses@[l as int].observers@.contains(x));
                        }
                    }
                    // the look joins the run
                    let t = done.len() as int;
                    let done_before = done;
                    let states_before = states;
                    let lists_before = lists;
                    let changes_before = changes;
                    done = done.push((subject, l as int));
                    states = states.push(cx.lenses@);
                    lists = lists.push(observers@);
                    changes = changes.push(changed);
                    assert(cx.lenses@ =~= lenses_before.update(l as int, cx.lenses@[l as int]));
                    assert(look_step(done, states, lists, changes, t));
                    assert forall|u: int| 0 <= u < done.len() implies #[trigger] look_step(
                        done,
                        states,
                        lists,
                        changes,
                        u,
                    ) by {
                        if u < t {
                            assert(look_step(done_before, states_before, lists_before, changes_before, u));
                        }
                    }
                    assert(model_looks(subject, width).take(l + 1) =~= model_looks(
                        subject,
                        width,
                    ).take(l as int).push((subject, l as int)));
                    assert(done =~= part + model_looks(subject, width).take(l + 1));
                }
                l += 1;
            }
            proof {
                assert(model_looks(subject, width).take(l as int) =~= model_looks(subject, width));
                assert(models.take(m + 1).drop_last() =~= models.take(m as int));
                assert(models.take(m + 1).last() == models[m as int]);
                assert(done =~= whole + store_looks(models.take(m + 1), width));
            }
            m += 1;
        }
        proof {
            assert(models.take(m as int) =~= models);
        }
        k += 1;
    }
    observers
}

/// The context as the view of `observer` finds it when it is asked to build: the
/// context `before` without that view, with `observer` as the current entity and
/// the count at 0.
pub open spec fn handed_over<V, M>(before: Context<V, M>, observer: Entity, found: Context<V, M>) -> bool {
    &&& taken_out(before.views, observer, found.views)
    &&& found.current == observer
    &&& found.count == 0
    &&& found.same_but_views(
        &(Context { current: observer, count: 0, ..before }),
    )
}

/// The context after the view of `observer` has built: what the view `left`, with
/// the current entity and the count as they were before the call, and with the
/// view, as it is now, attached to `observer` again if `observer` is still live.
pub open spec fn put_back<V, M>(left: Context<V, M>, observer: Entity, view: V, current: Entity, count: usize, after: Context<V, M>) -> bool {
    &&& after.current == current
    &&& after.count == count
    &&& after.same_but_views(&(Context { current, count, ..left }))
    &&& if left.entity_manager.is_alive_spec(observer) {
        put_in(left.views, observer, view, after.views)
    } else {
        after.views == left.views
    }
}

/// The view of `observer` built between `before` and `after`: it found the
/// context `found`, and left the context `left` and the view `view`.
pub open spec fn built_through<V: ViewHandler<M>, M>(before: Context<V, M>, observer: Entity, found: Context<V, M>, left: Context<V, M>, view: V, after: Context<V, M>) -> bool {
    &&& handed_over(before, observer, found)
    &&& before.views.value(observer).builds(found, left, view)
    &&& put_back(left, observer, view, before.current, before.count, after)
}

/// What rebuilding for `observer` makes of the context `before`: nothing where
/// `observer` has no view; else its view is taken out, builds, and is put back.
pub open spec fn rebuilt<V: ViewHandler<M>, M>(before: Context<V, M>, observer: Entity, after: Context<V, M>) -> bool {
    if before.views.contains(observer) {
        exists|found: Context<V, M>, left: Context<V, M>, view: V| #[trigger]
            built_through(before, observer, found, left, view, after)
    } else {
        after == before
    }
}

/// The `i`-th step of a rebuild: the `i`-th observer's turn.
pub open spec fn rebuild_step<V: ViewHandler<M>, M>(observers: Seq<Entity>, states: Seq<Context<V, M>>, i: int) -> bool {
    rebuilt(states[i], observers[i], states[i + 1])
}

/// `states` is the course of a rebuild for `observers`: the context before and
/// after every observer's turn, from `start` to `end`.
pub open spec fn is_rebuild<V: ViewHandler<M>, M>(observers: Seq<Entity>, start: Context<V, M>, end: Context<V, M>, states: Seq<Context<V, M>>) -> bool {
    &&& states.len() == observers.len() + 1
    &&& states[0] == start
    &&& states.last() == end
    &&& forall|i: int| 0 <= i < observers.len() ==> #[trigger] rebuild_step(observers, states, i)
}

/// Has the view of each of `observers` build what lies below it anew, in order.
/// The view is taken out of the context for the call, with the observer as the
/// current entity and the count at 0, and put back afterwards, current entity and
/// count restored, if the observer is still live. An observer without a view is
/// skipped.
#[verifier::rlimit(50)]
pub fn rebuild<V: ViewHandler<M>, M>(cx: &mut Context<V, M>, observers: &Vec<Entity>)
    requires
        old(cx).wf(),
    ensures
        final(cx).wf(),
        final(cx).current == old(cx).current,
        final(cx).count == old(cx).count,
        exists|states: Seq<Context<V, M>>| #[trigger]
            is_rebuild(observers@, *old(cx), *final(cx), states),
{
    let ghost mut states: Seq<Context<V, M>> = seq![*cx];
    let mut i: usize = 0;
    while i < observers.len()
        invariant
            i <= observers.len(),
            cx.wf(),
            cx.current == old(cx).current,
            cx.count == old(cx).count,
            is_rebuild(observers@.take(i as int), *old(cx), *cx, states),
        decreases observers.len() - i,
    {
        let observer: Entity = observers[i];
        let ghost before = *cx;
        match cx.views.remove(observer) {
            Some(view) => {
                let mut view = view;
                let previous: Entity = cx.current;
                let previous_count: usize = cx.count;
                cx.current = observer;
                cx.count = 0;
                let ghost found = *cx;
                view.body(cx);
                let ghost left = *cx;
                cx.current = previous;
                cx.count = previous_count;
                if cx.entity_manager.is_alive(observer) {
                    proof {
                        cx.entity_manager.lemma_alive(observer, observer);
                    }
                    let _ = cx.views.insert(observer, view);
                }
                proof {
                    assert(built_through(before, observer, found, left, view, *cx));
                }
            },
            None => {},
        }
        proof {
            let earlier = states;
            states = states.push(*cx);
            assert(rebuilt(before, observer, *cx));
            assert(observers@.take(i + 1) =~= observers@.take(i as int).push(observer));
            assert forall|j: int| 0 <= j < i + 1 implies #[trigger] rebuild_step(
                observers@.take(i + 1),
                states,
                j,
            ) by {
                if j < i {
                    assert(rebuild_step(observers@.take(i as int), earlier, j));
                }
            }
        }
        i += 1;
    }
    proof {
        assert(observers@.take(i as int) =~= observers@);
    }
}

/// The binding step of a frame, from the context `start`: first every lens looks
/// at every model, which leaves the context `looked` and the list `observers` of
/// the entities to rebuild; only then the view of each of `observers` builds, in
/// order, which leaves the context `built`.
pub open spec fn binding_course<V: ViewHandler<M>, M: Data>(start: Context<V, M>, looked: Context<V, M>, built: Context<V, M>, observers: Seq<Entity>) -> bool {
    &&& looked.same_but_lenses(&start)
    &&& exists|lenses: Seq<Seq<LensState<M>>>, lists: Seq<Seq<Entity>>, changes: Seq<bool>| #[trigger]
        is_run(
            all_looks(start.data, start.data.keys().len() as int, start.lenses@.len() as int),
            start.lenses@,
            looked.lenses@,
            observers,
            lenses,
            lists,
            changes,
        )
    &&& exists|states: Seq<Context<V, M>>| #[trigger] is_rebuild(observers, looked, built, states)
}

/// In the binding step all looks are done before the first view builds: the
/// looks leave everything but the lenses as it was, views included. The list of
/// the entities to rebuild names nobody twice, so that a view builds once in the
/// step however many models showed a change; and every entity of the list has its
/// turn, in the order of the list.
pub proof fn lemma_binding_course<V: ViewHandler<M>, M: Data>(start: Context<V, M>, looked: Context<V, M>, built: Context<V, M>, observers: Seq<Entity>)
    requires
        binding_course(start, looked, built, observers),
    ensures
        looked.same_but_lenses(&start),
        looked.views == start.views,
        looked.data == start.data,
        observers.no_duplicates(),
        exists|states: Seq<Context<V, M>>| #[trigger]
            is_rebuild(observers, looked, built, states) && states.len() == observers.len() + 1,
        observers.len() == 0 ==> built == looked,
{
    let (lenses, lists, changes) = choose|lenses: Seq<Seq<LensState<M>>>, lists: Seq<Seq<Entity>>, changes: Seq<bool>| #[trigger]
        is_run(
            all_looks(start.data, start.data.keys().len() as int, start.lenses@.len() as int),
            start.lenses@,
            looked.lenses@,
            observers,
            lenses,
            lists,
            changes,
        );
    lemma_run_rebuilds_once(
        all_looks(start.data, start.data.keys().len() as int, start.lenses@.len() as int),
        start.lenses@,
        looked.lenses@,
        observers,
        lenses,
        lists,
        changes,
    );
    let states = choose|states: Seq<Context<V, M>>| #[trigger] is_rebuild(observers, looked, built, states);
    assert(is_rebuild(observers, looked, built, states) && states.len() == observers.len() + 1);
}

/// A running application: the context, the event manager, the windows, and where
/// in the frame it stands.
pub struct Application<V, M> {
    pub context: Context<V, M>,
    pub event_manager: EventManager<M>,
    pub window_description: WindowDescription,
    /// Whether the loop runs on without waiting for the platform.
    pub should_poll: bool,
    /// The entity that stands for the first window.
    pub primary_window: Entity,
    /// The step that the next call of `advance` takes.
    pub phase: FramePhase,
    /// The requests of the last flush that have not been acted on yet, the next one
    /// last.
    pub requests: Vec<Event<M>>,
    /// The windows that are open.
    pub windows: Vec<WindowEntry>,
}

impl<V, M> Application<V, M> {
    /// The application's context is well-formed.
    pub open spec fn wf(&self) -> bool {
        self.context.wf()
    }

    /// Whether the application's context is well-formed.
    pub fn check(&self) -> (b: bool)
        ensures
            b == self.wf(),
    {
        self.context.check()
    }

    /// An application with one window, described by `window_description`, whose
    /// entity is a child of the root, hovered, focused and current. The window's
    /// entity has the size of the description in cache and style, is placed by
    /// itself, and clips to its size. `theme` is registered as the first theme;
    /// returned with the application is the text to parse for the rules.
    pub fn new(window_description: WindowDescription, theme: &str) -> (r: (Self, String))
        ensures
            r.0.wf(),
            r.0.phase == FramePhase::Rebuild,
            r.0.should_poll == false,
            r.0.window_description == window_description,
            r.0.windows@ == Seq::<WindowEntry>::empty(),
            r.0.requests@ == Seq::<Event<M>>::empty(),
            r.0.context.tree.parent_of(r.0.primary_window) == Some(Entity::spec_root()),
            r.0.context.tree@.len() == 2,
            r.0.context.current == r.0.primary_window,
            r.0.context.hovered == r.0.primary_window,
            r.0.context.focused == r.0.primary_window,
            r.0.context.captured == Entity::spec_null(),
            r.0.context.enviroment.needs_rebuild,
            r.0.context.event_queue@ == Seq::<Event<M>>::empty(),
            forall|e: Entity| !r.0.context.views.contains(e) && !r.0.context.data.contains(e),
            r.0.context.lenses@ == Seq::<LensState<M>>::empty(),
            r.0.context.count == 0,
            r.0.context.resource_manager.fonts@ == Seq::<crate::resource::FontEntry>::empty(),
            r.0.event_manager.event_queue@ == Seq::<Event<M>>::empty(),
            r.0.event_manager.deliveries@ == Seq::<Vec<crate::events::event_manager::Delivery>>::empty(),
            r.0.context.cache.row(r.0.primary_window) == (CacheRow {
                width: to_length(window_description.width),
                height: to_length(window_description.height),
                clip_region: BoundingBox {
                    x: 0,
                    y: 0,
                    w: to_length(window_description.width),
                    h: to_length(window_description.height),
                },
                ..CacheRow::spec_new()
            }),
            r.0.context.style.row(r.0.primary_window).inline@ == seq![
                Property::Width(Units::Pixels(to_length(window_description.width))),
                Property::Height(Units::Pixels(to_length(window_description.height))),
                Property::PositionType(PositionType::SelfDirected),
            ],
            r.0.context.style.flags() == (true, true, true),
            r.0.context.resource_manager.themes@.len() == 1,
            r.0.context.resource_manager.themes@[0]@ == theme@,
            r.1@ == theme@,
    {
        let mut context: Context<V, M> = Context::new();
        let created = context.add_entity(Entity::root());
        assert(created is Some);
        let primary_window: Entity = match created {
            Some(e) => e,
            None => Entity::root(),
        };
        let width: i32 = length(window_description.width);
        let height: i32 = length(window_description.height);
        context.current = primary_window;
        context.hovered = primary_window;
        context.focused = primary_window;
        context.cache.set_width(primary_window, width);
        context.cache.set_height(primary_window, height);
        context.cache.set_clip_region(primary_window, BoundingBox { x: 0, y: 0, w: width, h: height });
        context.style.set_property(primary_window, Property::Width(Units::Pixels(width)));
        context.style.set_property(primary_window, Property::Height(Units::Pixels(height)));
        context.style.set_property(primary_window, Property::PositionType(PositionType::SelfDirected));
        let sheets: Vec<String> = Vec::new();
        let css = context.add_theme(theme, &sheets);
        let app = Application {
            context,
            event_manager: EventManager::new(),
            window_description,
            should_poll: false,
            primary_window,
            phase: FramePhase::Rebuild,
            requests: Vec::new(),
            windows: Vec::new(),
        };
        (app, css)
    }

    /// Has the loop run on without waiting for the platform.
    pub fn should_poll(self) -> (app: Self)
        ensures
            app == (Application { should_poll: true, ..self }),
    {
        let mut app = self;
        app.should_poll = true;
        app
    }

    /// Declares the background colour of the first window.
    pub fn background_color(self, color: Color) -> (app: Self)
        requires
            self.wf(),
        ensures
            app.wf(),
            app.context.same_but_style(&self.context),
            app.phase == self.phase,
            app.should_poll == self.should_poll,
            app.primary_window == self.primary_window,
            app.windows == self.windows,
            app.context.style.rows_changed_only(&self.context.style, self.primary_window),
            self.context.style.contains(self.primary_window) ==> app.context.style.row(
                self.primary_window,
            ).inline@ == self.context.style.row(self.primary_window).inline@.push(
                Property::BackgroundColor(color),
            ),
    {
        let mut app = self;
        app.context.style.set_property(app.primary_window, Property::BackgroundColor(color));
        app
    }

    /// Chooses the locale.
    pub fn locale(self, id: &str) -> (app: Self)
        ensures
            app == self,
    {
        let mut app = self;
        app.context.enviroment.set_locale(id);
        app
    }

    /// Registers `entity` as the one that stands for the window `key`.
    pub fn register_window(&mut self, key: u64, entity: Entity)
        ensures
            final(self).windows@ == old(self).windows@.push(WindowEntry { key, entity }),
            final(self).context == old(self).context,
            final(self).phase == old(self).phase,
            final(self).primary_window == old(self).primary_window,
            final(self).should_poll == old(self).should_poll,
            final(self).requests == old(self).requests,
            final(self).event_manager == old(self).event_manager,
            final(self).window_description == old(self).window_description,
            window_lookup(final(self).windows@, key) == Some(entity),
    {
        self.windows.push(WindowEntry { key, entity });
        assert(self.windows@.last() == WindowEntry { key, entity });
    }

    /// The entity that stands for the window `key`.
    pub fn window_entity(&self, key: u64) -> (r: Option<Entity>)
        ensures
            r == window_lookup(self.windows@, key),
    {
        let mut i: usize = self.windows.len();
        assert(self.windows@.take(i as int) =~= self.windows@);
        while i > 0
            invariant
                i <= self.windows.len(),
                window_lookup(self.windows@, key) == window_lookup(self.windows@.take(i as int), key),
            decreases i,
        {
            i -= 1;
            proof {
                assert(self.windows@.take(i + 1).drop_last() =~= self.windows@.take(i as int));
                assert(self.windows@.take(i + 1).last() == self.windows@[i as int]);
            }
            if self.windows[i].key == key {
                return Some(self.windows[i].entity);
            }
        }
        None
    }

    /// The pointer moved to `(x, y)`. The hovered entity is found anew; then the
    /// entity that has captured the pointer is told of the move, and it alone, or
    /// else the hovered entity and its ancestors, unless the pointer rests on the
    /// first window itself.
    pub fn cursor_moved(&mut self, x: i32, y: i32)
        requires
            old(self).wf(),
        ensures
            final(self).wf(),
            final(self).phase == old(self).phase,
            final(self).primary_window == old(self).primary_window,
            final(self).windows == old(self).windows,
            final(self).window_description == old(self).window_description,
            final(self).event_manager == old(self).event_manager,
            final(self).context.mouse == (MouseState { cursorx: x, cursory: y, ..old(self).context.mouse }),
            final(self).context.tree == old(self).context.tree,
            final(self).context.cache == old(self).context.cache,
            final(self).context.captured == old(self).context.captured,
            final(self).context.focused == old(self).context.focused,
            final(self).context.hovered == entity_under(
                &Context { mouse: final(self).context.mouse, ..old(self).context },
            ),
            final(self).context.style.same_but_flags(&old(self).context.style),
            final(self).context.style.flags() == if final(self).context.hovered == old(self).context.hovered {
                old(self).context.style.flags()
            } else {
                (true, old(self).context.style.flags().1, true)
            },
            final(self).context.event_queue@ == old(self).context.event_queue@ + hover_events::<M>(
                old(self).context.hovered,
                final(self).context.hovered,
            ) + move_events::<M>(
                x,
                y,
                old(self).context.captured,
                final(self).context.hovered,
                old(self).primary_window,
            ),
    {
        self.context.mouse.cursorx = x;
        self.context.mouse.cursory = y;
        apply_hover(&mut self.context);
        if self.context.captured != Entity::null() {
            self.context.event_queue.push_back(
                Event::new(Message::Window(WindowEvent::MouseMove(x, y))).target(
                    self.context.captured,
                ).propagate(Propagation::Direct),
            );
        } else if self.context.hovered != self.primary_window {
            self.context.event_queue.push_back(
                Event::new(Message::Window(WindowEvent::MouseMove(x, y))).target(self.context.hovered),
            );
        }
        assert(self.context.event_queue@ =~= old(self).context.event_queue@ + hover_events::<M>(
            old(self).context.hovered,
            self.context.hovered,
        ) + move_events::<M>(
            x,
            y,
            old(self).context.captured,
            self.context.hovered,
            old(self).primary_window,
        ));
    }

    /// A mouse button went down or up. The entity that has captured the pointer is
    /// told, and it alone, or else the hovered entity and its ancestors. When the
    /// left, right or middle button goes down, where it went down and on which
    /// entity is kept.
    pub fn mouse_input(&mut self, button: MouseButton, state: MouseButtonState)
        ensures
            final(self).phase == old(self).phase,
            final(self).primary_window == old(self).primary_window,
            final(self).windows == old(self).windows,
            final(self).window_description == old(self).window_description,
            final(self).event_manager == old(self).event_manager,
            final(self).context.same_but_mouse_and_queue(&old(self).context),
            final(self).context.event_queue@ == old(self).context.event_queue@.push(
                Event {
                    message: Message::Window(
                        if state == MouseButtonState::Pressed {
                            WindowEvent::MouseDown(button)
                        } else {
                            WindowEvent::MouseUp(button)
                        },
                    ),
                    target: if old(self).context.captured != Entity::spec_null() {
                        old(self).context.captured
                    } else {
                        old(self).context.hovered
                    },
                    origin: Entity::spec_null(),
                    propagation: if old(self).context.captured != Entity::spec_null() {
                        Propagation::Direct
                    } else {
                        Propagation::Up
                    },
                    consumed: false,
                    trace: false,
                },
            ),
            final(self).context.mouse == pressed_state(
                old(self).context.mouse,
                button,
                state,
                old(self).context.hovered,
            ),
    {
        let message = match state {
            MouseButtonState::Pressed => WindowEvent::MouseDown(button),
            MouseButtonState::Released => WindowEvent::MouseUp(button),
        };
        let event = if self.context.captured != Entity::null() {
            Event::new(Message::Window(message)).target(self.context.captured).propagate(
                Propagation::Direct,
            )
        } else {
            Event::new(Message::Window(message)).target(self.context.hovered)
        };
        self.context.event_queue.push_back(event);
        match state {
            MouseButtonState::Pressed => {
                let data = MouseButtonData {
                    state: MouseButtonState::Pressed,
                    down_x: self.context.mouse.cursorx,
                    down_y: self.context.mouse.cursory,
                    pressed: self.context.hovered,
                };
                match button {
                    MouseButton::Left => {
                        self.context.mouse.left = data;
                    },
                    MouseButton::Right => {
                        self.context.mouse.right = data;
                    },
                    MouseButton::Middle => {
                        self.context.mouse.middle = data;
                    },
                    MouseButton::Other(_) => {},
                }
            },
            MouseButtonState::Released => {
                match button {
                    MouseButton::Left => {
                        self.context.mouse.left.state = MouseButtonState::Released;
                    },
                    MouseButton::Right => {
                        self.context.mouse.right.state = MouseButtonState::Released;
                    },
                    MouseButton::Middle => {
                        self.context.mouse.middle.state = MouseButtonState::Released;
                    },
                    MouseButton::Other(_) => {},
                }
            },
        }
    }

    /// A key went down or up. The focused entity and its ancestors are told, or
    /// those of the hovered entity where nothing is focused.
    pub fn keyboard_input(&mut self, code: keyboard_types::Code, key: keyboard_types::Key, state: MouseButtonState)
        ensures
            final(self).phase == old(self).phase,
            final(self).primary_window == old(self).primary_window,
            final(self).windows == old(self).windows,
            final(self).window_description == old(self).window_description,
            final(self).event_manager == old(self).event_manager,
            final(self).context.same_but_queue(&old(self).context),
            final(self).context.event_queue@ == old(self).context.event_queue@.push(
                Event {
                    message: Message::Window(
                        if state == MouseButtonState::Pressed {
                            WindowEvent::KeyDown(code, key)
                        } else {
                            WindowEvent::KeyUp(code, key)
                        },
                    ),
                    target: if old(self).context.focused != Entity::spec_null() {
                        old(self).context.focused
                    } else {
                        old(self).context.hovered
                    },
                    origin: Entity::spec_null(),
                    propagation: Propagation::Up,
                    consumed: false,
                    trace: false,
                },
            ),
    {
        let message = match state {
            MouseButtonState::Pressed => WindowEvent::KeyDown(code, key),
            MouseButtonState::Released => WindowEvent::KeyUp(code, key),
        };
        let target = if self.context.focused != Entity::null() {
            self.context.focused
        } else {
            self.context.hovered
        };
        self.context.event_queue.push_back(
            Event::new(Message::Window(message)).target(target).propagate(Propagation::Up),
        );
    }

    /// A character was typed. The focused entity and its ancestors are told.
    pub fn received_character(&mut self, character: char)
        ensures
            final(self).phase == old(self).phase,
            final(self).primary_window == old(self).primary_window,
            final(self).windows == old(self).windows,
            final(self).window_description == old(self).window_description,
            final(self).event_manager == old(self).event_manager,
            final(self).context.same_but_queue(&old(self).context),
            final(self).context.event_queue@ == old(self).context.event_queue@.push(
                Event {
                    message: Message::Window(WindowEvent::CharInput(character)),
                    target: old(self).context.focused,
                    origin: Entity::spec_null(),
                    propagation: Propagation::Up,
                    consumed: false,
                    trace: false,
                },
            ),
    {
        self.context.event_queue.push_back(
            Event::new(Message::Window(WindowEvent::CharInput(character))).target(
                self.context.focused,
            ).propagate(Propagation::Up),
        );
    }

    /// The modifier keys that are held changed.
    pub fn modifiers_changed(&mut self, shift: bool, alt: bool, ctrl: bool, logo: bool)
        ensures
            final(self).phase == old(self).phase,
            final(self).primary_window == old(self).primary_window,
            final(self).windows == old(self).windows,
            final(self).window_description == old(self).window_description,
            final(self).event_manager == old(self).event_manager,
            final(self).context.same_but_mouse_and_queue(&old(self).context),
            final(self).context.event_queue == old(self).context.event_queue,
            final(self).context.mouse == old(self).context.mouse,
            final(self).context.modifiers == (Modifiers { shift, ctrl, alt, logo }),
    {
        self.context.modifiers = Modifiers { shift, ctrl, alt, logo };
    }

    /// The window that `window_entity` stands for has the size `width` by `height`
    /// now. The entity gets this size in cache and style and clips to it, and
    /// styles, layout and painting are asked to be done anew.
    pub fn resized(&mut self, window_entity: Entity, width: u32, height: u32)
        requires
            old(self).wf(),
        ensures
            final(self).wf(),
            final(self).phase == old(self).phase,
            final(self).primary_window == old(self).primary_window,
            final(self).windows == old(self).windows,
            final(self).window_description == old(self).window_description,
            final(self).event_manager == old(self).event_manager,
            final(self).context.same_but_cache_and_style(&old(self).context),
            final(self).context.style.flags() == (true, true, true),
            final(self).context.style.rules() == old(self).context.style.rules(),
            final(self).context.style.rows_changed_only(&old(self).context.style, window_entity),
            old(self).context.style.contains(window_entity) ==> final(self).context.style.row(
                window_entity,
            ).inline@ == old(self).context.style.row(window_entity).inline@.push(
                Property::Width(Units::Pixels(to_length(width))),
            ).push(Property::Height(Units::Pixels(to_length(height)))),
            final(self).context.cache.changed_only(&old(self).context.cache, window_entity),
            old(self).context.cache.contains(window_entity) ==> final(self).context.cache.row(
                window_entity,
            ) == (CacheRow {
                width: to_length(width),
                height: to_length(height),
                clip_region: BoundingBox { x: 0, y: 0, w: to_length(width), h: to_length(height) },
                ..old(self).context.cache.row(window_entity)
            }),
    {
        let w: i32 = length(width);
        let h: i32 = length(height);
        self.context.style.set_property(window_entity, Property::Width(Units::Pixels(w)));
        self.context.style.set_property(window_entity, Property::Height(Units::Pixels(h)));
        self.context.cache.set_width(window_entity, w);
        self.context.cache.set_height(window_entity, h);
        self.context.cache.set_clip_region(window_entity, BoundingBox { x: 0, y: 0, w, h });
        self.context.style.set_needs_restyle(true);
        self.context.style.set_needs_relayout(true);
        self.context.style.set_needs_redraw(true);
    }

    /// The window `key` is to close. Its entity is removed with everything below
    /// it, and the window is forgotten. Returns whether no window is left, which is
    /// when the application ends. Where the window's entity cannot be removed,
    /// because it is the root or is not in the tree, nothing is changed and the
    /// error is returned.
    #[verifier::rlimit(50)]
    pub fn close_requested(&mut self, key: u64) -> (r: Result<bool, TreeError>)
        requires
            old(self).wf(),
        ensures
            final(self).wf(),
            final(self).phase == old(self).phase,
            final(self).primary_window == old(self).primary_window,
            r == Err::<bool, TreeError>(TreeError::IsRoot) <==> window_lookup(old(self).windows@, key)
                == Some(Entity::spec_root()),
            r == Err::<bool, TreeError>(TreeError::NotFound) <==> (window_lookup(
                old(self).windows@,
                key,
            ) matches Some(e) && e != Entity::spec_root() && !old(self).context.tree.contains(e)),
            r is Err ==> *final(self) == *old(self),
            r is Err ==> r == Err::<bool, TreeError>(TreeError::IsRoot) || r == Err::<bool, TreeError>(
                TreeError::NotFound,
            ),
            r matches Ok(exit) ==> {
                &&& exit == (final(self).windows@.len() == 0)
                &&& final(self).windows@ == without_window(old(self).windows@, key)
                &&& window_lookup(final(self).windows@, key) is None
                &&& final(self).should_poll == old(self).should_poll
                &&& final(self).requests == old(self).requests
                &&& final(self).event_manager == old(self).event_manager
                &&& final(self).window_description == old(self).window_description
                &&& match window_lookup(old(self).windows@, key) {
                    Some(e) => final(self).context.is_removal(&old(self).context, e),
                    None => final(self).context == old(self).context,
                }
            },
    {
        match self.window_entity(key) {
            Some(entity) => {
                match self.context.remove(entity) {
                    Ok(()) => {},
                    Err(e) => {
                        return Err(e);
                    },
                }
            },
            None => {},
        }
        let ghost context = self.context;
        let ghost before = self.windows@;
        let mut kept: Vec<WindowEntry> = Vec::new();
        let mut i: usize = 0;
        assert(before.take(0) =~= Seq::<WindowEntry>::empty());
        while i < self.windows.len()
            invariant
                i <= self.windows.len(),
                self.windows@ == before,
                self.context == context,
                self.phase == old(self).phase,
                self.primary_window == old(self).primary_window,
                self.should_poll == old(self).should_poll,
                self.requests == old(self).requests,
                self.event_manager == old(self).event_manager,
                self.window_description == old(self).window_description,
                kept@ == without_window(before.take(i as int), key),
            decreases self.windows.len() - i,
        {
            let w = self.windows[i];
            proof {
                assert(before.take(i + 1).drop_last() =~= before.take(i as int));
                assert(before.take(i + 1).last() == w);
            }
            if w.key != key {
                kept.push(w);
            }
            i += 1;
        }
        proof {
            assert(before.take(i as int) =~= before);
            lemma_without_window(before, key, key);
        }
        self.windows = kept;
        Ok(self.windows.len() == 0)
    }
}

/// What is queued to tell of a move of the pointer to `(x, y)`: the capturing
/// entity is told, and it alone; or else the hovered entity and its ancestors,
/// unless the pointer rests on the first window itself.
pub open spec fn move_events<M>(x: i32, y: i32, captured: Entity, hovered: Entity, primary_window: Entity) -> Seq<Event<M>> {
    if captured != Entity::spec_null() {
        seq![
            Event {
                message: Message::Window(WindowEvent::MouseMove(x, y)),
                target: captured,
                origin: Entity::spec_null(),
                propagation: Propagation::Direct,
                consumed: false,
                trace: false,
            },
        ]
    } else if hovered != primary_window {
        seq![
            Event {
                message: Message::Window(WindowEvent::MouseMove(x, y)),
                target: hovered,
                origin: Entity::spec_null(),
                propagation: Propagation::Up,
                consumed: false,
                trace: false,
            },
        ]
    } else {
        Seq::empty()
    }
}

/// The windows but for the window `key`, in their order.
pub open spec fn without_window(windows: Seq<WindowEntry>, key: u64) -> Seq<WindowEntry>
    decreases windows.len(),
{
    if windows.len() == 0 {
        windows
    } else if windows.last().key == key {
        without_window(windows.drop_last(), key)
    } else {
        without_window(windows.drop_last(), key).push(windows.last())
    }
}

/// No window is registered under a key that was taken out.
pub proof fn lemma_without_window(windows: Seq<WindowEntry>, key: u64, other: u64)
    ensures
        window_lookup(without_window(windows, key), key) is None,
        other != key ==> window_lookup(without_window(windows, key), other) == window_lookup(
            windows,
            other,
        ),
    decreases windows.len(),
{
    if windows.len() > 0 {
        lemma_without_window(windows.drop_last(), key, other);
        if windows.last().key != key {
            let rest = without_window(windows.drop_last(), key);
            assert(rest.push(windows.last()).drop_last() =~= rest);
        }
    }
}

/// The state of the mouse after `button` went down or up while the pointer rested
/// on `hovered`.
pub open spec fn pressed_state(mouse: MouseState, button: MouseButton, state: MouseButtonState, hovered: Entity) -> MouseState {
    let data = MouseButtonData {
        state: MouseButtonState::Pressed,
        down_x: mouse.cursorx,
        down_y: mouse.cursory,
        pressed: hovered,
    };
    match (state, button) {
        (MouseButtonState::Pressed, MouseButton::Left) => MouseState { left: data, ..mouse },
        (MouseButtonState::Pressed, MouseButton::Right) => MouseState { right: data, ..mouse },
        (MouseButtonState::Pressed, MouseButton::Middle) => MouseState { middle: data, ..mouse },
        (MouseButtonState::Released, MouseButton::Left) => MouseState {
            left: MouseButtonData { state: MouseButtonState::Released, ..mouse.left },
            ..mouse
        },
        (MouseButtonState::Released, MouseButton::Right) => MouseState {
            right: MouseButtonData { state: MouseButtonState::Released, ..mouse.right },
            ..mouse
        },
        (MouseButtonState::Released, MouseButton::Middle) => MouseState {
            middle: MouseButtonData { state: MouseButtonState::Released, ..mouse.middle },
            ..mouse
        },
        (_, MouseButton::Other(_)) => mouse,
    }
}

impl<V: ViewHandler<M>, M: Model<V>> Application<V, M> {
    /// What the step that `before` stands at does: `after` is the application once
    /// the step is taken, `action` what the caller is told to do.
    pub open spec fn step_effect(before: &Self, after: &Self, action: FrameAction) -> bool {
        match before.phase {
            FramePhase::Rebuild => {
                &&& action == if before.context.enviroment.needs_rebuild {
                    FrameAction::Build
                } else {
                    FrameAction::Continue
                }
                &&& after.requests == before.requests
                &&& after.context == if before.context.enviroment.needs_rebuild {
                    Context { current: before.primary_window, count: 0, ..before.context }
                } else {
                    before.context
                }
            },
            FramePhase::Built => {
                &&& action == FrameAction::Continue
                &&& after.requests == before.requests
                &&& after.context == (Context {
                    enviroment: Enviroment { needs_rebuild: false },
                    ..before.context
                })
            },
            FramePhase::Resources => {
                &&& action == if before.context.resource_manager.has_pending_font() {
                    FrameAction::LoadFonts
                } else {
                    FrameAction::Continue
                }
                &&& after.context == before.context
                &&& after.requests == before.requests
            },
            FramePhase::Events => {
                &&& action == FrameAction::Continue
                &&& before.context.event_queue@.len() == 0 ==> after.context == before.context && after.requests == before.requests
                &&& before.context.event_queue@.len() > 0 ==> after.requests@.reverse()
                    == app_requests(before.context.event_queue@) && is_trace(
                    after.event_manager.deliveries@,
                    routes(before.context.event_queue@),
                    &after.event_manager.tree,
                ) && after.event_manager.tree@ == before.context.tree@
                &&& before.context.event_queue@.len() > 0 ==> exists|contexts: Seq<Context<V, M>>| #[trigger]
                    is_flush(
                        before.context.event_queue@,
                        after.event_manager.deliveries@,
                        after.event_manager.event_queue@,
                        before.context,
                        after.context,
                        contexts,
                    )
            },
            FramePhase::AppEvents => {
                &&& after.context == before.context
                &&& before.requests@.len() == 0 ==> action == FrameAction::Continue
                    && after.requests@ == before.requests@
                &&& before.requests@.len() > 0 ==> {
                    &&& after.requests@ == before.requests@.drop_last()
                    &&& action == match before.requests@.last().app_request() {
                        Some(AppEvent::CreateWindow) => FrameAction::CreateWindow(
                            before.requests@.last().origin,
                        ),
                        None => FrameAction::Continue,
                    }
                }
            },
            FramePhase::Binding => {
                &&& action == FrameAction::Continue
                &&& after.requests == before.requests
                &&& after.context.current == before.primary_window
                &&& exists|looked: Context<V, M>, built: Context<V, M>, observers: Seq<Entity>| #[trigger]
                    binding_course(before.context, looked, built, observers) && after.context == (
                    Context { current: before.primary_window, ..built })
            },
            FramePhase::Styling => {
                &&& action == FrameAction::Continue
                &&& after.requests == before.requests
                &&& after.context.same_but_cache_and_style(&before.context)
                &&& after.context.style.rules() == before.context.style.rules()
                &&& forall|x: Entity|
                    before.context.style.flags().0 && before.context.style.contains(x)
                        && before.context.tree.contains(x) ==> #[trigger] after.context.style.row(x) == (StyleRow {
                        resolved: resolution(
                            &before.context.style,
                            x,
                            before.context.hovered,
                            before.context.captured,
                            before.context.focused,
                        ),
                        ..before.context.style.row(x)
                    })
                &&& forall|i: int|
                    0 <= i < before.context.tree@.len() ==> #[trigger] after.context.cache.row(before.context.tree@[i].entity) == derived_row(
                        before.context.tree@,
                        &after.context.style,
                        i,
                        before.context.cache.row(before.context.tree@[i].entity),
                    )
                &&& after.context.style.flags() == flags_after_styling(
                    before.context.style.flags(),
                    any_geometry_change(
                        &before.context.style,
                        before.context.tree.preorder(),
                        before.context.hovered,
                        before.context.captured,
                        before.context.focused,
                    ),
                    any_paint_change(
                        &before.context.style,
                        before.context.tree.preorder(),
                        before.context.hovered,
                        before.context.captured,
                        before.context.focused,
                    ),
                )
            },
            FramePhase::Layout => {
                &&& action == if before.context.style.flags().1 {
                    FrameAction::Layout
                } else {
                    FrameAction::Continue
                }
                &&& after.requests == before.requests
                &&& after.context.same_but_style(&before.context)
                &&& after.context.style.same_but_flags(&before.context.style)
                &&& after.context.style.flags() == flags_after_layout(
                    before.context.style.flags(),
                )
            },
            FramePhase::Geometry => {
                &&& action == FrameAction::Continue
                &&& after.requests == before.requests
                &&& after.context.same_but_cache_and_queue(&before.context)
                &&& after.context.event_queue@ == before.context.event_queue@
                    + crate::layout::geometry_events::<M>(
                    before.context.tree@,
                    &before.context.cache,
                    before.context.tree@.len() as int,
                )
                &&& forall|x: Entity|
                    before.context.tree.contains(x) ==> #[trigger] after.context.cache.row(x) == (CacheRow {
                        previous: before.context.cache.row(x).bounds(),
                        ..before.context.cache.row(x)
                    })
            },
            FramePhase::Wake => {
                &&& action == if before.context.event_queue@.len() > 0 {
                    FrameAction::Wake
                } else {
                    FrameAction::Continue
                }
                &&& after.context == before.context
                &&& after.requests == before.requests
            },
            FramePhase::Hover => {
                &&& action == FrameAction::Continue
                &&& after.requests == before.requests
                &&& after.context.hovered == entity_under(&before.context)
                &&& after.context.same_but_hover(
                    &(Context { cache: after.context.cache, ..before.context }),
                )
                &&& after.context.event_queue@ == before.context.event_queue@
                    + hover_events::<M>(before.context.hovered, after.context.hovered)
                &&& forall|i: int|
                    0 <= i < before.context.tree@.len() ==> #[trigger] after.context.cache.row(before.context.tree@[i].entity) == (CacheRow {
                        transform: effective_transform(
                            before.context.tree@,
                            &before.context.cache,
                            &before.context.style,
                            i,
                        ),
                        clip_region: effective_clip(
                            before.context.tree@,
                            &before.context.cache,
                            i,
                        ),
                        ..before.context.cache.row(before.context.tree@[i].entity)
                    })
                &&& after.context.style.same_but_flags(&before.context.style)
                &&& after.context.style.flags() == if after.context.hovered == before.context.hovered {
                    before.context.style.flags()
                } else {
                    (true, before.context.style.flags().1, true)
                }
            },
            FramePhase::Redraw => {
                &&& action == if before.context.style.flags().2 {
                    FrameAction::RequestRedraw
                } else {
                    FrameAction::Continue
                }
                &&& after.requests == before.requests
                &&& after.context.same_but_style(&before.context)
                &&& after.context.style.same_but_flags(&before.context.style)
                &&& after.context.style.flags() == flags_after_redraw(
                    before.context.style.flags(),
                )
            },
            FramePhase::Idle => {
                &&& action == FrameAction::Idle
                &&& after.requests == before.requests
                &&& after.context == (Context {
                    current: before.primary_window,
                    count: 0,
                    ..before.context
                })
            },
            FramePhase::AfterIdle => {
                &&& action == if before.context.event_queue@.len() > 0 {
                    FrameAction::Wake
                } else {
                    FrameAction::Continue
                }
                &&& after.context == before.context
                &&& after.requests == before.requests
            },
            FramePhase::End => {
                &&& action == FrameAction::Done
                &&& after.context == before.context
                &&& after.requests == before.requests
            },
        }
    }

    /// Handles the events that are queued, one flush of them.
    #[verifier::rlimit(50)]
    fn take_events(&mut self) -> (action: FrameAction)
        requires
            old(self).wf(),
            old(self).phase == FramePhase::Events,
        ensures
            final(self).wf(),
            final(self).primary_window == old(self).primary_window,
            final(self).should_poll == old(self).should_poll,
            final(self).windows == old(self).windows,
            final(self).window_description == old(self).window_description,
            old(self).context.event_queue@.len() == 0 ==> final(self).event_manager == old(self).event_manager,
            final(self).phase == next_phase(
                old(self).phase,
                old(self).context.enviroment.needs_rebuild,
                old(self).context.event_queue@.len() == 0,
                old(self).requests@.len() == 0,
            ),
            Self::step_effect(old(self), final(self), action),
    {
        if self.context.event_queue.len() == 0 {
            self.phase = FramePhase::Binding;
        } else {
            let mut collected = self.event_manager.flush_events(&mut self.context);
            // the next request to act on is taken off the back
            let ghost all = collected@;
            let mut reversed: Vec<Event<M>> = Vec::new();
            while collected.len() > 0
                invariant
                    collected@ + reversed@.reverse() == all,
                decreases collected.len(),
            {
                let ghost before_collected = collected@;
                let ghost before_reversed = reversed@;
                let event = collected.pop().unwrap();
                reversed.push(event);
                proof {
                    assert(reversed@.reverse() =~= seq![event] + before_reversed.reverse());
                    assert(before_collected =~= collected@ + seq![event]);
                    assert(collected@ + reversed@.reverse() =~= before_collected
                        + before_reversed.reverse());
                }
            }
            assert(reversed@.reverse() =~= all);
            self.requests = reversed;
            self.phase = FramePhase::AppEvents;
        }
        FrameAction::Continue
    }

    /// Looks through the lenses and rebuilds the observers of those that changed.
    #[verifier::rlimit(50)]
    fn take_binding(&mut self) -> (action: FrameAction)
        requires
            old(self).wf(),
            old(self).phase == FramePhase::Binding,
        ensures
            final(self).wf(),
            final(self).primary_window == old(self).primary_window,
            final(self).should_poll == old(self).should_poll,
            final(self).windows == old(self).windows,
            final(self).window_description == old(self).window_description,
            final(self).event_manager == old(self).event_manager,
            final(self).phase == next_phase(
                old(self).phase,
                old(self).context.enviroment.needs_rebuild,
                old(self).context.event_queue@.len() == 0,
                old(self).requests@.len() == 0,
            ),
            Self::step_effect(old(self), final(self), action),
    {
        let observers = update_lenses(&mut self.context);
        let ghost looked = self.context;
        rebuild(&mut self.context, &observers);
        let ghost built = self.context;
        self.context.current = self.primary_window;
        proof {
            assert(binding_course(old(self).context, looked, built, observers@));
        }
        self.phase = FramePhase::Styling;
        FrameAction::Continue
    }

    /// Resolves styles and what follows from them along the tree.
    fn take_styling(&mut self) -> (action: FrameAction)
        requires
            old(self).wf(),
            old(self).phase == FramePhase::Styling,
        ensures
            final(self).wf(),
            final(self).primary_window == old(self).primary_window,
            final(self).should_poll == old(self).should_poll,
            final(self).windows == old(self).windows,
            final(self).window_description == old(self).window_description,
            final(self).event_manager == old(self).event_manager,
            final(self).phase == next_phase(
                old(self).phase,
                old(self).context.enviroment.needs_rebuild,
                old(self).context.event_queue@.len() == 0,
                old(self).requests@.len() == 0,
            ),
            Self::step_effect(old(self), final(self), action),
    {
        apply_styles(&mut self.context);
        apply_inherited(&mut self.context);
        self.phase = FramePhase::Layout;
        FrameAction::Continue
    }

    /// Reports the bounds that changed.
    fn take_geometry(&mut self) -> (action: FrameAction)
        requires
            old(self).wf(),
            old(self).phase == FramePhase::Geometry,
        ensures
            final(self).wf(),
            final(self).primary_window == old(self).primary_window,
            final(self).should_poll == old(self).should_poll,
            final(self).windows == old(self).windows,
            final(self).window_description == old(self).window_description,
            final(self).event_manager == old(self).event_manager,
            final(self).phase == next_phase(
                old(self).phase,
                old(self).context.enviroment.needs_rebuild,
                old(self).context.event_queue@.len() == 0,
                old(self).requests@.len() == 0,
            ),
            Self::step_effect(old(self), final(self), action),
    {
        geometry_changed(&mut self.context);
        self.phase = FramePhase::Wake;
        FrameAction::Continue
    }

    /// Computes the transforms, finds the hovered entity, computes the clip rectangles.
    fn take_hover(&mut self) -> (action: FrameAction)
        requires
            old(self).wf(),
            old(self).phase == FramePhase::Hover,
        ensures
            final(self).wf(),
            final(self).primary_window == old(self).primary_window,
            final(self).should_poll == old(self).should_poll,
            final(self).windows == old(self).windows,
            final(self).window_description == old(self).window_description,
            final(self).event_manager == old(self).event_manager,
            final(self).phase == next_phase(
                old(self).phase,
                old(self).context.enviroment.needs_rebuild,
                old(self).context.event_queue@.len() == 0,
                old(self).requests@.len() == 0,
            ),
            Self::step_effect(old(self), final(self), action),
    {
        apply_transform(&mut self.context);
        proof {
            crate::hover_system::lemma_hit_ignores_transform(
                old(self).context.tree@,
                &old(self).context.cache,
                &self.context.cache,
                old(self).context.mouse.cursorx as int,
                old(self).context.mouse.cursory as int,
                old(self).context.tree@.len() as int,
            );
        }
        apply_hover(&mut self.context);
        let ghost moved = self.context.cache;
        apply_clipping(&mut self.context);
        proof {
            assert forall|i: int| 0 <= i < old(self).context.tree@.len() implies effective_clip(
                old(self).context.tree@,
                &moved,
                i,
            ) == effective_clip(old(self).context.tree@, &old(self).context.cache, i) by {
                crate::style_system::lemma_clip_ignores_transform(
                    old(self).context.tree@,
                    &old(self).context.cache,
                    &moved,
                    i,
                );
            }
        }
        self.phase = FramePhase::Redraw;
        FrameAction::Continue
    }

    /// The `i`-th step of a frame in which nobody asks for anything: the step that
    /// `advance` takes, in which the handlers of events and the views that rebuild
    /// leave the flags of the style as they are, and in which the pointer is over
    /// the entity that is hovered already.
    pub open spec fn quiet_step(before: Seq<Self>, after: Seq<Self>, actions: Seq<FrameAction>, i: int) -> bool {
        &&& Self::step_effect(&before[i], &after[i], actions[i])
        &&& after[i].phase == next_phase(
            before[i].phase,
            before[i].context.enviroment.needs_rebuild,
            before[i].context.event_queue@.len() == 0,
            before[i].requests@.len() == 0,
        )
        &&& before[i].phase == FramePhase::Events || before[i].phase == FramePhase::Binding
            ==> after[i].context.style.flags() == before[i].context.style.flags()
        &&& before[i].phase == FramePhase::Hover ==> entity_under(&before[i].context)
            == before[i].context.hovered
    }

    /// Between the `i`-th step of a frame and the next nobody touches the flags of
    /// the style, and the frame goes on where it stands.
    pub open spec fn quiet_link(before: Seq<Self>, after: Seq<Self>, i: int) -> bool {
        &&& before[i].phase != FramePhase::End
        &&& before[i + 1].phase == after[i].phase
        &&& before[i + 1].context.style.flags() == after[i].context.style.flags()
    }

    /// `before` and `after` are the application before and after every step of one
    /// frame, from its first step to its last, in which nobody asks for anything
    /// besides what the steps themselves ask for.
    pub open spec fn is_quiet_frame(before: Seq<Self>, after: Seq<Self>, actions: Seq<FrameAction>) -> bool {
        &&& before.len() >= 1
        &&& after.len() == before.len()
        &&& actions.len() == before.len()
        &&& before[0].phase == FramePhase::Rebuild
        &&& before.last().phase == FramePhase::End
        &&& forall|i: int| 0 <= i < before.len() ==> #[trigger] Self::quiet_step(before, after, actions, i)
        &&& forall|i: int| 0 <= i < before.len() - 1 ==> #[trigger] Self::quiet_link(before, after, i)
    }

    /// What the flags of the style are when a quiet frame that began with the flags
    /// `initial` stands at `phase`: as at the beginning up to the styling step; no
    /// styles asked for after it; no layout asked for after the layout step; and
    /// nothing asked for after the redraw step.
    pub open spec fn flags_on_course(phase: FramePhase, flags: (bool, bool, bool), initial: (bool, bool, bool)) -> bool {
        match phase {
            FramePhase::Rebuild | FramePhase::Built | FramePhase::Resources | FramePhase::Events | FramePhase::AppEvents | FramePhase::Binding | FramePhase::Styling => flags
                == initial,
            FramePhase::Layout => !flags.0,
            FramePhase::Geometry | FramePhase::Wake | FramePhase::Hover | FramePhase::Redraw => !flags.0
                && !flags.1,
            FramePhase::Idle | FramePhase::AfterIdle | FramePhase::End => flags == (
                false,
                false,
                false,
            ),
        }
    }

    /// A frame that begins with styles asked for, and in which nobody asks for
    /// anything besides what the steps themselves ask for, ends with nothing asked
    /// for. The styling step answers the request for styles and asks for layout
    /// exactly if it was asked for before or a style changed in what decides
    /// placement, and for painting exactly if it was asked for before or a style
    /// changed in what decides painting; the layout step and the redraw step answer
    /// these in turn, and no step asks for a step that comes before it.
    pub proof fn lemma_quiet_frame_settles(before: Seq<Self>, after: Seq<Self>, actions: Seq<FrameAction>, i: int)
        requires
            Self::is_quiet_frame(before, after, actions),
            before[0].context.style.flags().0,
            0 <= i < before.len(),
        ensures
            Self::flags_on_course(
                before[i].phase,
                before[i].context.style.flags(),
                before[0].context.style.flags(),
            ),
            before[i].phase == FramePhase::Styling ==> after[i].context.style.flags() == (
                false,
                before[0].context.style.flags().1 || any_geometry_change(
                    &before[i].context.style,
                    before[i].context.tree.preorder(),
                    before[i].context.hovered,
                    before[i].context.captured,
                    before[i].context.focused,
                ),
                before[0].context.style.flags().2 || any_paint_change(
                    &before[i].context.style,
                    before[i].context.tree.preorder(),
                    before[i].context.hovered,
                    before[i].context.captured,
                    before[i].context.focused,
                ),
            ),
            before[i].phase == FramePhase::Layout ==> (actions[i] == FrameAction::Layout)
                == before[i].context.style.flags().1,
            before[i].phase == FramePhase::Redraw ==> (actions[i] == FrameAction::RequestRedraw)
                == before[i].context.style.flags().2,
            i == before.len() - 1 ==> after[i].context.style.flags() == (false, false, false),
        decreases i,
    {
        assert(Self::quiet_step(before, after, actions, i));
        if i > 0 {
            Self::lemma_quiet_frame_settles(before, after, actions, i - 1);
            assert(Self::quiet_step(before, after, actions, i - 1));
            assert(Self::quiet_link(before, after, i - 1));
        }
    }

    /// Takes the next step of the frame and says what the caller has to do before
    /// it calls again. A frame is the run of calls up to the one that returns
    /// `FrameAction::Done`, which every frame ends with; the call after that begins
    /// the next frame.
    ///
    /// The steps are taken in the order of [`FramePhase`]. Events are handled one
    /// flush at a time, followed by the requests that the flush collected, until no
    /// event is queued; what the steps after that queue waits for the next frame.
    pub fn advance(&mut self) -> (action: FrameAction)
        requires
            old(self).wf(),
        ensures
            final(self).wf(),
            final(self).primary_window == old(self).primary_window,
            final(self).should_poll == old(self).should_poll,
            final(self).windows == old(self).windows,
            final(self).window_description == old(self).window_description,
            old(self).phase != FramePhase::Events ==> final(self).event_manager == old(self).event_manager,
            final(self).phase == next_phase(
                old(self).phase,
                old(self).context.enviroment.needs_rebuild,
                old(self).context.event_queue@.len() == 0,
                old(self).requests@.len() == 0,
            ),
            Self::step_effect(old(self), final(self), action),
    {
        match self.phase {
            FramePhase::Rebuild => {
                if self.context.enviroment.needs_rebuild {
                    self.context.current = self.primary_window;
                    self.context.count = 0;
                    self.phase = FramePhase::Built;
                    FrameAction::Build
                } else {
                    self.phase = FramePhase::Resources;
                    FrameAction::Continue
                }
            },
            FramePhase::Built => {
                self.context.enviroment.needs_rebuild = false;
                self.phase = FramePhase::Resources;
                FrameAction::Continue
            },
            FramePhase::Resources => {
                self.phase = FramePhase::Events;
                if self.context.resource_manager.next_pending_font().is_some() {
                    FrameAction::LoadFonts
                } else {
                    FrameAction::Continue
                }
            },
            FramePhase::Events => self.take_events(),
            FramePhase::AppEvents => {
                match self.requests.pop() {
                    Some(event) => {
                        match event.get_app_request() {
                            Some(AppEvent::CreateWindow) => FrameAction::CreateWindow(event.origin),
                            None => FrameAction::Continue,
                        }
                    },
                    None => {
                        self.phase = FramePhase::Events;
                        FrameAction::Continue
                    },
                }
            },
            FramePhase::Binding => self.take_binding(),
            FramePhase::Styling => self.take_styling(),
            FramePhase::Layout => {
                self.phase = FramePhase::Geometry;
                if self.context.style.needs_relayout() {
                    self.context.style.set_needs_relayout(false);
                    FrameAction::Layout
                } else {
                    FrameAction::Continue
                }
            },
            FramePhase::Geometry => self.take_geometry(),
            FramePhase::Wake => {
                self.phase = FramePhase::Hover;
                if self.context.event_queue.len() > 0 {
                    FrameAction::Wake
                } else {
                    FrameAction::Continue
                }
            },
            FramePhase::Hover => self.take_hover(),
            FramePhase::Redraw => {
                self.phase = FramePhase::Idle;
                if self.context.style.needs_redraw() {
                    self.context.style.set_needs_redraw(false);
                    FrameAction::RequestRedraw
                } else {
                    FrameAction::Continue
                }
            },
            FramePhase::Idle => {
                self.context.current = self.primary_window;
                self.context.count = 0;
                self.phase = FramePhase::AfterIdle;
                FrameAction::Idle
            },
            FramePhase::AfterIdle => {
                self.phase = FramePhase::End;
                if self.context.event_queue.len() > 0 {
                    FrameAction::Wake
                } else {
                    FrameAction::Continue
                }
            },
            FramePhase::End => {
                self.phase = FramePhase::Rebuild;
                FrameAction::Done
            },
        }
    }
}

/// The step that follows `phase`, where `needs_rebuild` says whether the
/// environment asks for the interface to be built, `queue_empty` whether no event is
/// queued, and `requests_empty` whether no request waits to be acted on.
pub open spec fn next_phase(phase: FramePhase, needs_rebuild: bool, queue_empty: bool, requests_empty: bool) -> FramePhase {
    match phase {
        FramePhase::Rebuild => if needs_rebuild {
            FramePhase::Built
        } else {
            FramePhase::Resources
        },
        FramePhase::Built => FramePhase::Resources,
        FramePhase::Resources => FramePhase::Events,
        FramePhase::Events => if queue_empty {
            FramePhase::Binding
        } else {
            FramePhase::AppEvents
        },
        FramePhase::AppEvents => if requests_empty {
            FramePhase::Events
        } else {
            FramePhase::AppEvents
        },
        FramePhase::Binding => FramePhase::Styling,
        FramePhase::Styling => FramePhase::Layout,
        FramePhase::Layout => FramePhase::Geometry,
        FramePhase::Geometry => FramePhase::Wake,
        FramePhase::Wake => FramePhase::Hover,
        FramePhase::Hover => FramePhase::Redraw,
        FramePhase::Redraw => FramePhase::Idle,
        FramePhase::Idle => FramePhase::AfterIdle,
        FramePhase::AfterIdle => FramePhase::End,
        FramePhase::End => FramePhase::Rebuild,
    }
}

} // verus!
