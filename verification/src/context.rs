use crate::binding::{find_tag, position_of_tag, Data, LensState, ModelEntry};
use crate::cache::{CacheRow, CachedData};
use crate::entity::{Entity, IdManager};
use crate::events::event::{Event, Message, Propagation};
use crate::mouse::{Modifiers, MouseState};
use crate::resource::{append_all, concat_all, ResourceManager};
use crate::storage::SparseSet;
use crate::style::{Rule, Style};
use crate::tree::{line_of, outline_add, outline_remove, Tree, TreeError};
use std::collections::VecDeque;
use vstd::prelude::*;

verus! {

/// What the application as a whole depends on. A change here means that the whole
/// interface has to be built anew.
pub struct Enviroment {
    pub needs_rebuild: bool,
}

impl Enviroment {
    /// The environment of an application that has not been built yet.
    pub fn new() -> (env: Self)
        ensures
            env.needs_rebuild,
    {
        Enviroment { needs_rebuild: true }
    }

    /// Chooses the locale. Texts are not localised yet, so nothing depends on the
    /// locale and the environment stays as it is.
    pub fn set_locale(&mut self, locale: &str)
        ensures
            *final(self) == *old(self),
    {
    }
}

/// What a widget does.
///
/// The runtime takes a view out of the context before it calls it, sets
/// `cx.current` to the view's entity, and puts the view back afterwards if the
/// entity is still live. A view may do to the context whatever the context's own
/// operations allow; it has to leave it well-formed.
pub trait ViewHandler<M>: Sized {
    /// What `event` did: called on this view with the context `found` and the
    /// event `offered`, it left the context `left`, the event `answered` and the view
    /// `after`. Nothing is known of it but that it holds of every call.
    open spec fn handles(&self, found: Context<Self, M>, offered: Event<M>, left: Context<Self, M>, answered: Event<M>, after: Self) -> bool {
        true
    }

    /// Reacts to an event that reached this view's entity. Setting
    /// `event.consumed` stops the event from travelling further.
    fn event(&mut self, cx: &mut Context<Self, M>, event: &mut Event<M>)
        requires
            old(cx).wf(),
            !old(cx).views.contains(old(cx).current),
        ensures
            final(cx).wf(),
            old(self).handles(*old(cx), *old(event), *final(cx), *final(event), *final(self)),
    ;

    /// What `body` did: called on this view with the context `found`, it left the
    /// context `left` and the view `after`. Nothing is known of it but that it holds
    /// of every call.
    open spec fn builds(&self, found: Context<Self, M>, left: Context<Self, M>, after: Self) -> bool {
        true
    }

    /// Builds what lies below this view's entity anew.
    fn body(&mut self, cx: &mut Context<Self, M>)
        requires
            old(cx).wf(),
            !old(cx).views.contains(old(cx).current),
            old(cx).count == 0,
        ensures
            final(cx).wf(),
            old(self).builds(*old(cx), *final(cx), *final(self)),
    ;
}

/// What a model does besides being watched through lenses.
///
/// The runtime takes an entity's models out of the context before it calls them and
/// sets `cx.current` to their entity.
pub trait Model<V>: Data {
    /// What `event` did: called on this model with the context `found` and the
    /// event `offered`, it left the context `left`, the event `answered` and the
    /// model `after`. Nothing is known of it but that it holds of every call.
    open spec fn reacts(&self, found: Context<V, Self>, offered: Event<Self>, left: Context<V, Self>, answered: Event<Self>, after: Self) -> bool {
        true
    }

    /// Reacts to an event that reached this model's entity.
    fn event(&mut self, cx: &mut Context<V, Self>, event: &mut Event<Self>)
        requires
            old(cx).wf(),
        ensures
            final(cx).wf(),
            old(self).reacts(*old(cx), *old(event), *final(cx), *final(event), *final(self)),
    ;
}

/// The state of a running interface, handed to every phase of a frame and to every
/// handler.
pub struct Context<V, M> {
    pub entity_manager: IdManager,
    pub tree: Tree,
    /// The entity on whose behalf the context is being used.
    pub current: Entity,
    pub count: usize,
    pub views: SparseSet<V>,
    pub lenses: Vec<LensState<M>>,
    /// The models of each entity, each filed under the tag of its type.
    pub data: SparseSet<Vec<ModelEntry<M>>>,
    pub event_queue: VecDeque<Event<M>>,
    pub style: Style,
    pub cache: CachedData,
    pub enviroment: Enviroment,
    pub mouse: MouseState,
    pub modifiers: Modifiers,
    /// The entity that gets every pointer event, or null.
    pub captured: Entity,
    pub hovered: Entity,
    pub focused: Entity,
    pub resource_manager: ResourceManager,
}

/// The first entity of `chain` whose store holds a model filed under `tag`.
pub open spec fn owner_in<M>(chain: Seq<Entity>, data: SparseSet<Vec<ModelEntry<M>>>, tag: u64) -> Option<Entity>
    decreases chain.len(),
{
    if chain.len() == 0 {
        None
    } else if data.contains(chain[0]) && find_tag(data.value(chain[0])@, tag) is Some {
        Some(chain[0])
    } else {
        owner_in(chain.drop_first(), data, tag)
    }
}

impl<V, M> Context<V, M> {
    /// The parts are well-formed; every entity of the tree is live; the cache has a
    /// row for each entity of the tree and for no other; style, views and models are
    /// kept for live entities only; no two lenses are registered under one id; and
    /// no lens lists an observer twice.
    pub open spec fn wf(&self) -> bool {
        &&& self.entity_manager.wf()
        &&& self.tree.wf()
        &&& self.cache.wf()
        &&& self.style.wf()
        &&& self.views.wf()
        &&& self.data.wf()
        &&& forall|e: Entity| #[trigger]
            self.tree.contains(e) ==> self.entity_manager.is_alive_spec(e) && self.cache.contains(e)
        &&& forall|e: Entity| #[trigger] self.cache.contains(e) ==> self.tree.contains(e)
        &&& forall|e: Entity| #[trigger]
            self.style.contains(e) ==> self.entity_manager.is_alive_spec(e)
        &&& forall|e: Entity| #[trigger]
            self.views.contains(e) ==> self.entity_manager.is_alive_spec(e)
        &&& forall|e: Entity| #[trigger] self.data.contains(e) ==> self.entity_manager.is_alive_spec(e)
        &&& forall|i: int| 0 <= i < self.lenses@.len() ==> (#[trigger] self.lenses@[i]).wf()
        &&& forall|i: int, j: int|
            0 <= i < j < self.lenses@.len() ==> (#[trigger] self.lenses@[i]).id != (
            #[trigger] self.lenses@[j]).id
    }

    /// Whether the context is well-formed. It is after every operation of this
    /// library; code that writes to the parts directly can use this to make sure
    /// that it left them in order.
    pub fn check(&self) -> (b: bool)
        ensures
            b == self.wf(),
    {
        if !self.entity_manager.check() || !self.tree.check() || !self.cache.check()
            || !self.style.check() || !self.views.check() || !self.data.check() {
            return false;
        }
        let n: usize = self.tree.len();
        let mut i: usize = 0;
        while i < n
            invariant
                i <= n,
                n == self.tree@.len(),
                self.tree.wf(),
                self.entity_manager.wf(),
                forall|j: int|
                    0 <= j < i ==> self.entity_manager.is_alive_spec((#[trigger] self.tree@[j]).entity)
                        && self.cache.contains(self.tree@[j].entity),
            decreases n - i,
        {
            let e: Entity = self.tree.entity_at(i);
            proof {
                crate::tree::lemma_line_of_is(self.tree@, i as int);
            }
            if !self.entity_manager.is_alive(e) || !self.cache.has(e) {
                assert(self.tree.contains(e));
                return false;
            }
            i += 1;
        }
        proof {
            assert forall|e: Entity| #[trigger] self.tree.contains(e) implies self.entity_manager.is_alive_spec(
                e,
            ) && self.cache.contains(e) by {
                crate::tree::lemma_line_of(self.tree@, e);
                let j = line_of(self.tree@, e);
                assert(self.tree@[j].entity == e);
            }
        }
        let mut k: usize = 0;
        while k < self.cache.len()
            invariant
                k <= self.cache.keys().len(),
                self.tree.wf(),
                self.cache.wf(),
                forall|j: int| 0 <= j < k ==> self.tree.contains(#[trigger] self.cache.keys()[j]),
            decreases self.cache.keys().len() - k,
        {
            let e: Entity = self.cache.key_at(k);
            if !self.tree.contains_entity(e) {
                proof {
                    self.cache.lemma_keys(e);
                    assert(self.cache.keys()[k as int] == e);
                }
                return false;
            }
            k += 1;
        }
        proof {
            assert forall|e: Entity| #[trigger] self.cache.contains(e) implies self.tree.contains(
                e,
            ) by {
                self.cache.lemma_keys(e);
                let j = choose|j: int| 0 <= j < self.cache.keys().len() && self.cache.keys()[j] == e;
                assert(self.tree.contains(self.cache.keys()[j]));
            }
        }
        let mut k: usize = 0;
        while k < self.style.len()
            invariant
                k <= self.style.keys().len(),
                self.entity_manager.wf(),
                self.style.wf(),
                forall|j: int|
                    0 <= j < k ==> self.entity_manager.is_alive_spec(#[trigger] self.style.keys()[j]),
            decreases self.style.keys().len() - k,
        {
            let e: Entity = self.style.key_at(k);
            if !self.entity_manager.is_alive(e) {
                proof {
                    self.style.lemma_keys(e);
                    assert(self.style.keys()[k as int] == e);
                }
                return false;
            }
            k += 1;
        }
        proof {
            assert forall|e: Entity| #[trigger]
                self.style.contains(e) implies self.entity_manager.is_alive_spec(e) by {
                self.style.lemma_keys(e);
                let j = choose|j: int| 0 <= j < self.style.keys().len() && self.style.keys()[j] == e;
                assert(self.entity_manager.is_alive_spec(self.style.keys()[j]));
            }
        }
        let mut k: usize = 0;
        proof {
            self.views.lemma_keys();
        }
        while k < self.views.len()
            invariant
                k <= self.views.keys().len(),
                self.entity_manager.wf(),
                self.views.wf(),
                forall|j: int|
                    0 <= j < k ==> self.entity_manager.is_alive_spec(#[trigger] self.views.keys()[j]),
            decreases self.views.keys().len() - k,
        {
            let e: Entity = self.views.key_at(k);
            if !self.entity_manager.is_alive(e) {
                proof {
                    self.views.lemma_keys();
                    assert(self.views.contains(self.views.keys()[k as int]));
                }
                return false;
            }
            k += 1;
        }
        proof {
            assert forall|e: Entity| #[trigger]
                self.views.contains(e) implies self.entity_manager.is_alive_spec(e) by {
                self.views.lemma_keys();
                assert(self.views.keys()[self.views.position(e)] == e);
            }
        }
        let mut k: usize = 0;
        while k < self.data.len()
            invariant
                k <= self.data.keys().len(),
                self.entity_manager.wf(),
                self.data.wf(),
                forall|j: int|
                    0 <= j < k ==> self.entity_manager.is_alive_spec(#[trigger] self.data.keys()[j]),
            decreases self.data.keys().len() - k,
        {
            let e: Entity = self.data.key_at(k);
            if !self.entity_manager.is_alive(e) {
                proof {
                    self.data.lemma_keys();
                    assert(self.data.contains(self.data.keys()[k as int]));
                }
                return false;
            }
            k += 1;
        }
        proof {
            assert forall|e: Entity| #[trigger]
                self.data.contains(e) implies self.entity_manager.is_alive_spec(e) by {
                self.data.lemma_keys();
                assert(self.data.keys()[self.data.position(e)] == e);
            }
        }
        let mut i: usize = 0;
        while i < self.lenses.len()
            invariant
                i <= self.lenses.len(),
                forall|j: int| 0 <= j < i ==> (#[trigger] self.lenses@[j]).wf(),
                forall|a: int, b: int|
                    0 <= a < b < i ==> (#[trigger] self.lenses@[a]).id != (#[trigger] self.lenses@[b]).id,
            decreases self.lenses.len() - i,
        {
            if !self.lenses[i].check() {
                return false;
            }
            let mut j: usize = 0;
            while j < i
                invariant
                    j <= i < self.lenses.len(),
                    forall|a: int| 0 <= a < j ==> (#[trigger] self.lenses@[a]).id != self.lenses@[i as int].id,
                decreases i - j,
            {
                if self.lenses[j].id == self.lenses[i].id {
                    return false;
                }
                j += 1;
            }
            i += 1;
        }
        true
    }

    /// A handle that is not live is absent wherever one looks: it is not in the
    /// tree and has neither parent nor ancestors, the cache answers with the
    /// defaults, and it has no style, no view and no models.
    pub proof fn lemma_dead_is_absent(&self, e: Entity)
        requires
            self.wf(),
            !self.entity_manager.is_alive_spec(e),
        ensures
            !self.tree.contains(e),
            self.tree.parent_of(e) is None,
            self.tree.ancestors_of(e) == Seq::<Entity>::empty(),
            self.tree.subtree_of(e) == Seq::<Entity>::empty(),
            !self.cache.contains(e),
            self.cache.row(e) == CacheRow::spec_new(),
            !self.style.contains(e),
            self.style.resolved(e) == crate::style::Appearance::spec_new(),
            !self.views.contains(e),
            !self.data.contains(e),
    {
        crate::tree::lemma_line_of(self.tree@, e);
        assert(!self.tree.contains(e));
        assert(!self.cache.contains(e));
        assert(self.tree.ancestors_of(e) =~= Seq::<Entity>::empty());
        self.cache.lemma_absent_is_default(e);
    }

    /// `self` is `before` but for the event queue.
    pub open spec fn same_but_queue(&self, before: &Self) -> bool {
        &&& self.entity_manager == before.entity_manager
        &&& self.tree == before.tree
        &&& self.current == before.current
        &&& self.count == before.count
        &&& self.views == before.views
        &&& self.lenses == before.lenses
        &&& self.data == before.data
        &&& self.style == before.style
        &&& self.cache == before.cache
        &&& self.enviroment == before.enviroment
        &&& self.mouse == before.mouse
        &&& self.modifiers == before.modifiers
        &&& self.captured == before.captured
        &&& self.hovered == before.hovered
        &&& self.focused == before.focused
        &&& self.resource_manager == before.resource_manager
    }

    /// The entity whose model a lookup for `tag` finds: the nearest of `current`
    /// and its ancestors that has a model filed under `tag`.
    pub open spec fn data_owner(&self, tag: u64) -> Option<Entity> {
        owner_in(self.tree.ancestors_of(self.current), self.data, tag)
    }

    /// A context that holds the root entity alone: nothing is queued, captured or
    /// registered, and the root is current, hovered and focused.
    pub fn new() -> (cx: Self)
        ensures
            cx.wf(),
            cx.tree@ == seq![crate::tree::Node { entity: Entity::spec_root(), depth: 0 }],
            cx.tree.contains(Entity::spec_root()),
            cx.entity_manager.is_alive_spec(Entity::spec_root()),
            !cx.entity_manager.is_full(),
            cx.cache.row(Entity::spec_root()) == CacheRow::spec_new(),
            cx.current == Entity::spec_root(),
            cx.hovered == Entity::spec_root(),
            cx.focused == Entity::spec_root(),
            cx.captured == Entity::spec_null(),
            cx.count == 0,
            cx.event_queue@ == Seq::<Event<M>>::empty(),
            cx.lenses@ == Seq::<LensState<M>>::empty(),
            cx.enviroment.needs_rebuild,
            cx.style.flags() == (false, false, false),
            cx.style.rules() == Seq::<Rule>::empty(),
            forall|e: Entity| !cx.views.contains(e) && !cx.data.contains(e),
            forall|e: Entity| cx.tree.contains(e) ==> e == Entity::spec_root(),
            cx.mouse == MouseState::spec_new(),
            cx.modifiers == Modifiers::spec_empty(),
            cx.resource_manager.fonts@ == Seq::<crate::resource::FontEntry>::empty(),
            cx.resource_manager.themes@ == Seq::<String>::empty(),
            cx.resource_manager.stylesheets@ == Seq::<String>::empty(),
    {
        let mut entity_manager = IdManager::new();
        let created = entity_manager.create();
        let tree = Tree::new();
        let mut cache = CachedData::new();
        let root = Entity::root();
        let _ = cache.add(root);
        proof {
            // the first handle of an empty arena is the root
            assert(created is Some);
            assert(entity_manager.slots() <= 1);
            crate::entity::lemma_first_handle(entity_manager, created->0);
            entity_manager.lemma_not_full();
            assert forall|e: Entity| tree.contains(e) implies e == Entity::spec_root() by {
                crate::tree::lemma_line_of(tree@, e);
            }
        }
        Context {
            entity_manager,
            tree,
            current: root,
            count: 0,
            views: SparseSet::new(),
            lenses: Vec::new(),
            data: SparseSet::new(),
            event_queue: VecDeque::new(),
            style: Style::new(),
            cache,
            enviroment: Enviroment::new(),
            mouse: MouseState::new(),
            modifiers: Modifiers::empty(),
            captured: Entity::null(),
            hovered: root,
            focused: root,
            resource_manager: ResourceManager::new(),
        }
    }

    /// Creates an entity as the last child of `parent`, with a row of defaults in
    /// the cache and an empty row in the style. Returns `None`, and changes nothing
    /// that can be seen, where `parent` is not in the tree or no handle is left to
    /// issue.
    #[verifier::rlimit(50)]
    pub fn add_entity(&mut self, parent: Entity) -> (r: Option<Entity>)
        requires
            old(self).wf(),
        ensures
            final(self).wf(),
            r is Some <==> old(self).tree.contains(parent) && !old(self).entity_manager.is_full(),
            final(self).same_but_entities(old(self)),
            r is None ==> {
                &&& final(self).tree@ == old(self).tree@
                &&& final(self).cache == old(self).cache
                &&& final(self).style == old(self).style
                &&& forall|x: Entity|
                    final(self).entity_manager.is_alive_spec(x) == old(self).entity_manager.is_alive_spec(x)
            },
            r matches Some(e) ==> {
                &&& !old(self).entity_manager.issued(e)
                &&& !old(self).tree.contains(e)
                &&& final(self).entity_manager.is_alive_spec(e)
                &&& final(self).tree@ == outline_add(
                    old(self).tree@,
                    line_of(old(self).tree@, parent),
                    e,
                )
                &&& final(self).tree.parent_of(e) == Some(parent)
                &&& forall|x: Entity|
                    #[trigger] final(self).tree.contains(x) == (old(self).tree.contains(x) || x == e)
                &&& forall|x: Entity|
                    old(self).tree.contains(x) ==> #[trigger] final(self).tree.parent_of(x) == old(self).tree.parent_of(x)
                &&& final(self).tree.contains(e)
                &&& !final(self).views.contains(e)
                &&& !final(self).data.contains(e)
                &&& final(self).cache.contains(e)
                &&& final(self).cache.row(e) == CacheRow::spec_new()
                &&& forall|x: Entity|
                    old(self).tree.contains(x) ==> #[trigger] final(self).cache.row(x) == old(self).cache.row(x)
                &&& final(self).style.contains(e)
                &&& final(self).style.row(e).element is None
                &&& final(self).style.row(e).classes@ == Seq::<u32>::empty()
                &&& final(self).style.row(e).inline@ == Seq::<crate::style::Property>::empty()
                &&& !final(self).style.row(e).checked
                &&& final(self).style.row(e).resolved == crate::style::Appearance::spec_new()
                &&& forall|x: Entity|
                    x != e ==> {
                        &&& #[trigger] final(self).entity_manager.is_alive_spec(x) == old(self).entity_manager.is_alive_spec(x)
                        &&& final(self).style.contains(x) == old(self).style.contains(x)
                        &&& final(self).cache.contains(x) == old(self).cache.contains(x)
                    }
                &&& forall|x: Entity|
                    old(self).style.contains(x) ==> #[trigger] final(self).style.row(x) == old(self).style.row(x)
                &&& forall|x: Entity|
                    final(self).entity_manager.issued(x) == (old(self).entity_manager.issued(x) || x == e)
                &&& final(self).style.rules() == old(self).style.rules()
                &&& final(self).style.flags() == (
                    true,
                    old(self).style.flags().1,
                    old(self).style.flags().2,
                )
            },
    {
        if !self.tree.contains_entity(parent) {
            return None;
        }
        let e: Entity = match self.entity_manager.create() {
            Some(e) => e,
            None => {
                return None;
            },
        };
        proof {
            if old(self).tree.contains(e) || old(self).views.contains(e) || old(self).data.contains(e)
                || old(self).style.contains(e) {
                old(self).entity_manager.lemma_alive(e, e);
            }
        }
        let added = self.tree.add(e, parent);
        assert(added is Ok);
        self.cache.remove(e);
        let rowed = self.cache.add(e);
        proof {
            self.entity_manager.lemma_alive(e, e);
            assert(rowed is Ok);
            assert forall|x: Entity| #[trigger] self.tree.contains(x) implies self.cache.contains(
                x,
            ) && self.entity_manager.is_alive_spec(x) by {
                if x != e {
                    assert(old(self).tree.contains(x));
                    self.entity_manager.lemma_alive(e, x);
                }
            }
            assert forall|x: Entity| old(self).tree.contains(x) implies #[trigger] self.cache.row(x)
                == old(self).cache.row(x) by {
                self.entity_manager.lemma_alive(e, x);
            }
        }
        let _ = self.style.add(e);
        proof {
            assert forall|x: Entity| x != e implies self.style.contains(x) == old(self).style.contains(x)
                && self.cache.contains(x) == old(self).cache.contains(x) by {
                self.entity_manager.lemma_alive(e, x);
            }
            assert forall|x: Entity| old(self).style.contains(x) implies #[trigger] self.style.row(x)
                == old(self).style.row(x) by {
                self.entity_manager.lemma_alive(e, x);
            }
        }
        Some(e)
    }

    /// `self` is `before` but for the entities and what is kept per entity in tree,
    /// cache and style.
    pub open spec fn same_but_entities(&self, before: &Self) -> bool {
        &&& self.current == before.current
        &&& self.count == before.count
        &&& self.views == before.views
        &&& self.lenses == before.lenses
        &&& self.data == before.data
        &&& self.event_queue == before.event_queue
        &&& self.enviroment == before.enviroment
        &&& self.mouse == before.mouse
        &&& self.modifiers == before.modifiers
        &&& self.captured == before.captured
        &&& self.hovered == before.hovered
        &&& self.focused == before.focused
        &&& self.resource_manager == before.resource_manager
    }

    /// `self` is what removing `entity`, which is in the tree of `before` and is not
    /// the root, makes of `before`: the entities of its subtree are gone from the
    /// tree, the cache, the style, the views, the models and the observer lists, and
    /// are live no more; every other entity keeps what it had; and the rest of the
    /// context is as it was.
    pub open spec fn is_removal(&self, before: &Self, entity: Entity) -> bool {
        &&& self.tree@ == outline_remove(
            before.tree@,
            line_of(before.tree@, entity),
        )
        &&& forall|x: Entity|
            #[trigger] self.tree.contains(x) == (before.tree.contains(x) && !before.tree.in_subtree_of(entity, x))
        &&& forall|x: Entity|
            self.tree.contains(x) ==> #[trigger] self.tree.parent_of(x) == before.tree.parent_of(x)
        &&& forall|x: Entity| #[trigger]
            before.tree.in_subtree_of(entity, x) ==> {
                &&& !self.entity_manager.is_alive_spec(x)
                &&& !self.cache.contains(x)
                &&& self.cache.row(x) == CacheRow::spec_new()
                &&& !self.style.contains(x)
                &&& !self.views.contains(x)
                &&& !self.data.contains(x)
                &&& forall|i: int|
                    0 <= i < self.lenses@.len() ==> !(
                    #[trigger] self.lenses@[i]).observers@.contains(x)
            }
        &&& forall|x: Entity|
            !before.tree.in_subtree_of(entity, x) ==> {
                &&& #[trigger] self.entity_manager.is_alive_spec(x) == before.entity_manager.is_alive_spec(x)
                &&& self.cache.contains(x) == before.cache.contains(x)
                &&& self.cache.row(x) == before.cache.row(x)
                &&& self.style.contains(x) == before.style.contains(x)
                &&& self.views.contains(x) == before.views.contains(x)
                &&& self.data.contains(x) == before.data.contains(x)
                &&& before.style.contains(x) ==> self.style.row(x) == before.style.row(x)
                &&& before.views.contains(x) ==> self.views.value(x) == before.views.value(x)
                &&& before.data.contains(x) ==> self.data.value(x) == before.data.value(x)
            }
        &&& forall|x: Entity|
            self.entity_manager.issued(x) == before.entity_manager.issued(x)
        &&& self.lenses@.len() == before.lenses@.len()
        &&& forall|i: int|
            0 <= i < before.lenses@.len() ==> {
                &&& (#[trigger] self.lenses@[i]).id == before.lenses@[i].id
                &&& self.lenses@[i].previous == before.lenses@[i].previous
                &&& forall|x: Entity|
                    !before.tree.in_subtree_of(entity, x) ==> self.lenses@[i].observers@.contains(x) == before.lenses@[i].observers@.contains(x)
            }
        &&& self.style.rules() == before.style.rules()
        &&& self.style.flags() == before.style.flags()
        &&& self.event_queue == before.event_queue
        &&& self.current == before.current
        &&& self.count == before.count
        &&& self.enviroment == before.enviroment
        &&& self.mouse == before.mouse
        &&& self.modifiers == before.modifiers
        &&& self.captured == before.captured
        &&& self.hovered == before.hovered
        &&& self.focused == before.focused
        &&& self.resource_manager == before.resource_manager
    }

    /// Removes `entity` and everything below it: from the tree, the cache, the
    /// style, the views, the models and the observer lists of the lenses, and takes
    /// their handles out of use. Within each of these the entities go in reverse
    /// pre-order, so that every child goes before its parent.
    #[verifier::rlimit(50)]
    pub fn remove(&mut self, entity: Entity) -> (r: Result<(), TreeError>)
        requires
            old(self).wf(),
        ensures
            final(self).wf(),
            r == Err::<(), TreeError>(TreeError::IsRoot) <==> entity == Entity::spec_root(),
            r == Err::<(), TreeError>(TreeError::NotFound) <==> entity != Entity::spec_root()
                && !old(self).tree.contains(entity),
            r is Ok <==> entity != Entity::spec_root() && old(self).tree.contains(entity),
            r is Ok ==> !final(self).tree.contains(entity),
            r is Err ==> *final(self) == *old(self),
            r is Ok ==> final(self).is_removal(old(self), entity),
    {
        let removed: Vec<Entity> = match self.tree.remove(entity) {
            Ok(removed) => removed,
            Err(e) => {
                return Err(e);
            },
        };
        proof {
            assert forall|x: Entity| removed@.contains(x) == old(self).tree.in_subtree_of(
                entity,
                x,
            ) by {
                old(self).tree.lemma_subtree_members(entity, x);
            }
        }
        let mut i: usize = 0;
        while i < self.lenses.len()
            invariant
                i <= self.lenses.len(),
                self.lenses@.len() == old(self).lenses@.len(),
                forall|j: int| 0 <= j < self.lenses@.len() ==> (#[trigger] self.lenses@[j]).wf(),
                forall|j: int|
                    0 <= j < i ==> forall|x: Entity|
                        removed@.contains(x) ==> !(#[trigger] self.lenses@[j]).observers@.contains(x),
                forall|j: int|
                    0 <= j < self.lenses@.len() ==> (#[trigger] self.lenses@[j]).id == old(self).lenses@[j].id && self.lenses@[j].previous == old(self).lenses@[j].previous,
                forall|j: int|
                    0 <= j < self.lenses@.len() ==> forall|x: Entity|
                        !removed@.contains(x) ==> (#[trigger] self.lenses@[j]).observers@.contains(x)
                            == old(self).lenses@[j].observers@.contains(x),
                forall|j: int| i <= j < self.lenses@.len() ==> (#[trigger] self.lenses@[j]) == old(self).lenses@[j],
                self.entity_manager == old(self).entity_manager,
                self.cache == old(self).cache,
                self.style == old(self).style,
                self.views == old(self).views,
                self.data == old(self).data,
                self.event_queue == old(self).event_queue,
                self.current == old(self).current,
                self.count == old(self).count,
                self.enviroment == old(self).enviroment,
                self.mouse == old(self).mouse,
                self.modifiers == old(self).modifiers,
                self.captured == old(self).captured,
                self.hovered == old(self).hovered,
                self.focused == old(self).focused,
                self.resource_manager == old(self).resource_manager,
                self.tree@ == outline_remove(old(self).tree@, line_of(old(self).tree@, entity)),
            decreases self.lenses.len() - i,
        {
            let ghost lenses_before = self.lenses@;
            self.lenses[i].remove_observers(&removed);
            proof {
                assert forall|j: int| 0 <= j < self.lenses@.len() && j != i implies (
                #[trigger] self.lenses@[j]) == lenses_before[j] by {}
                assert forall|j: int| 0 <= j < self.lenses@.len() implies forall|x: Entity|
                    !removed@.contains(x) ==> (#[trigger] self.lenses@[j]).observers@.contains(x)
                        == old(self).lenses@[j].observers@.contains(x) by {
                    if j != i {
                        assert(self.lenses@[j] == lenses_before[j]);
                    } else {
                        assert(lenses_before[j] == old(self).lenses@[j]);
                    }
                }
            }
            i += 1;
        }
        self.cache.remove_each(&removed);
        self.style.remove_each(&removed);
        self.data.remove_each(&removed);
        self.entity_manager.destroy_each(&removed);
        self.views.remove_each(&removed);
        proof {
            assert forall|x: Entity| #[trigger]
                old(self).tree.in_subtree_of(entity, x) == removed@.contains(x) by {
                old(self).tree.lemma_subtree_members(entity, x);
            }
            old(self).tree.lemma_removed(self.tree, entity);
            crate::tree::lemma_line_of(old(self).tree@, entity);
            crate::tree::lemma_subtree_end(
                old(self).tree@,
                crate::tree::line_of(old(self).tree@, entity),
            );
            assert(old(self).tree.in_subtree_of(entity, entity));
        }
        Ok(())
    }

    /// Queues `message` for the current entity, to travel upwards from there.
    pub fn emit(&mut self, message: Message<M>)
        ensures
            final(self).same_but_queue(old(self)),
            final(self).event_queue@ == old(self).event_queue@.push(
                Event {
                    message,
                    target: old(self).current,
                    origin: old(self).current,
                    propagation: Propagation::Up,
                    consumed: false,
                    trace: false,
                },
            ),
    {
        let event = Event::new(message).target(self.current).origin(self.current).propagate(
            Propagation::Up,
        );
        self.event_queue.push_back(event);
    }

    /// Like [`Context::emit`], and asks for the event's deliveries to be reported.
    pub fn emit_trace(&mut self, message: Message<M>)
        ensures
            final(self).same_but_queue(old(self)),
            final(self).event_queue@ == old(self).event_queue@.push(
                Event {
                    message,
                    target: old(self).current,
                    origin: old(self).current,
                    propagation: Propagation::Up,
                    consumed: false,
                    trace: true,
                },
            ),
    {
        let event = Event::new(message).target(self.current).origin(self.current).propagate(
            Propagation::Up,
        ).trace();
        self.event_queue.push_back(event);
    }

    /// Queues `event` behind everything that is queued.
    pub fn enqueue(&mut self, event: Event<M>)
        ensures
            final(self).same_but_queue(old(self)),
            final(self).event_queue@ == old(self).event_queue@.push(event),
    {
        self.event_queue.push_back(event);
    }

    /// The entity that owns the model which a lookup for `tag` finds, and the place
    /// of that model in the entity's store.
    pub fn find_data(&self, tag: u64) -> (r: Option<(Entity, usize)>)
        requires
            self.wf(),
        ensures
            r is Some == self.data_owner(tag) is Some,
            r matches Some((owner, k)) ==> {
                &&& self.data_owner(tag) == Some(owner)
                &&& self.data.contains(owner)
                &&& find_tag(self.data.value(owner)@, tag) == Some(k as int)
                &&& k < self.data.value(owner)@.len()
            },
    {
        let chain: Vec<Entity> = self.tree.ancestors(self.current);
        let mut i: usize = 0;
        assert(chain@.skip(0) =~= chain@);
        while i < chain.len()
            invariant
                i <= chain.len(),
                chain@ == self.tree.ancestors_of(self.current),
                owner_in(chain@, self.data, tag) == owner_in(chain@.skip(i as int), self.data, tag),
            decreases chain.len() - i,
        {
            let entity: Entity = chain[i];
            proof {
                assert(chain@.skip(i as int)[0] == entity);
                assert(chain@.skip(i as int).drop_first() =~= chain@.skip(i + 1));
            }
            match self.data.get(entity) {
                Some(models) => {
                    match position_of_tag(models, tag) {
                        Some(k) => {
                            return Some((entity, k));
                        },
                        None => {},
                    }
                },
                None => {},
            }
            i += 1;
        }
        None
    }

    /// The model filed under `tag` that is nearest to the current entity: its own,
    /// or else that of the nearest ancestor that has one.
    pub fn data(&self, tag: u64) -> (r: Option<&M>)
        requires
            self.wf(),
        ensures
            r is Some == self.data_owner(tag) is Some,
            r matches Some(model) ==> {
                let owner = self.data_owner(tag)->0;
                let models = self.data.value(owner)@;
                *model == models[find_tag(models, tag)->0].model
            },
    {
        match self.find_data(tag) {
            Some((owner, k)) => {
                match self.data.get(owner) {
                    Some(models) => Some(&models[k].model),
                    None => None,
                }
            },
            None => None,
        }
    }

    /// Like [`Context::data`], for change. Nothing but the model that is lent can
    /// change through the loan.
    pub fn data_mut(&mut self, tag: u64) -> (r: Option<&mut M>)
        requires
            old(self).wf(),
        ensures
            r is Some == old(self).data_owner(tag) is Some,
            r is None ==> *final(self) == *old(self),
            r matches Some(model) ==> {
                let owner = old(self).data_owner(tag)->0;
                let models = old(self).data.value(owner)@;
                let k = find_tag(models, tag)->0;
                &&& *model == models[k].model
                &&& final(self).wf()
                &&& final(self).same_but_data(old(self))
                &&& final(self).data.keys() == old(self).data.keys()
                &&& forall|x: Entity| #[trigger] final(self).data.contains(x) == old(self).data.contains(x)
                &&& forall|x: Entity|
                    x != owner && old(self).data.contains(x) ==> final(self).data.value(x) == old(self).data.value(x)
                &&& final(self).data.value(owner)@ == models.update(
                    k,
                    ModelEntry { tag: models[k].tag, model: *final(model) },
                )
            },
    {
        match self.find_data(tag) {
            Some((owner, k)) => {
                match self.data.get_mut(owner) {
                    Some(models) => Some(&mut models[k].model),
                    None => None,
                }
            },
            None => None,
        }
    }

    /// `self` is `before` but for the models.
    pub open spec fn same_but_data(&self, before: &Self) -> bool {
        &&& self.entity_manager == before.entity_manager
        &&& self.tree == before.tree
        &&& self.current == before.current
        &&& self.count == before.count
        &&& self.views == before.views
        &&& self.lenses == before.lenses
        &&& self.event_queue == before.event_queue
        &&& self.style == before.style
        &&& self.cache == before.cache
        &&& self.enviroment == before.enviroment
        &&& self.mouse == before.mouse
        &&& self.modifiers == before.modifiers
        &&& self.captured == before.captured
        &&& self.hovered == before.hovered
        &&& self.focused == before.focused
        &&& self.resource_manager == before.resource_manager
    }

    /// `self` is `before` but for the style and the registered resources.
    pub open spec fn same_but_style_and_resources(&self, before: &Self) -> bool {
        &&& self.entity_manager == before.entity_manager
        &&& self.tree == before.tree
        &&& self.current == before.current
        &&& self.count == before.count
        &&& self.views == before.views
        &&& self.lenses == before.lenses
        &&& self.data == before.data
        &&& self.event_queue == before.event_queue
        &&& self.cache == before.cache
        &&& self.enviroment == before.enviroment
        &&& self.mouse == before.mouse
        &&& self.modifiers == before.modifiers
        &&& self.captured == before.captured
        &&& self.hovered == before.hovered
        &&& self.focused == before.focused
    }

    /// Registers the font `data` under `name`. A name that is taken keeps its font:
    /// the call changes nothing then and returns false.
    pub fn add_font_mem(&mut self, name: &str, data: &[u8]) -> (added: bool)
        ensures
            added == !old(self).resource_manager.has_font(name@),
            !added ==> *final(self) == *old(self),
            final(self).same_but_style_and_resources(old(self)),
            final(self).style == old(self).style,
            added ==> {
                &&& final(self).resource_manager.has_font(name@)
                &&& final(self).resource_manager.fonts@.drop_last() == old(self).resource_manager.fonts@
                &&& final(self).resource_manager.fonts@.last().name@ == name@
                &&& final(self).resource_manager.fonts@.last().font is Font
                &&& final(self).resource_manager.fonts@.last().font->Font_0@ == data@
                &&& final(self).resource_manager.themes == old(self).resource_manager.themes
                &&& final(self).resource_manager.stylesheets == old(self).resource_manager.stylesheets
            },
    {
        let added = self.resource_manager.add_font_mem(name, data);
        proof {
            if added {
                let n = self.resource_manager.fonts@.len() - 1;
                assert(self.resource_manager.fonts@[n].name@ == name@);
            }
        }
        added
    }

    /// Names the font that text is set in where nothing else is said.
    pub fn set_default_font(&mut self, name: &str)
        ensures
            final(self).same_but_style_and_resources(old(self)),
            final(self).resource_manager == old(self).resource_manager,
            final(self).style.font() == name@,
            final(self).style.rules() == old(self).style.rules(),
            final(self).style.flags() == old(self).style.flags(),
            final(self).style.wf() == old(self).style.wf(),
            forall|x: Entity| #[trigger] final(self).style.contains(x) == old(self).style.contains(x),
            forall|x: Entity| final(self).style.row(x) == old(self).style.row(x),
    {
        self.style.set_default_font(name);
    }

    /// Prepares a reload of the styles. `sheets` are the texts of the registered
    /// stylesheets, in the order of their registration.
    ///
    /// Where neither a theme nor a stylesheet is registered, nothing happens and
    /// `None` is returned. Otherwise every rule and everything that was resolved is
    /// forgotten, styles, layout and painting are asked to be done anew, and the
    /// text to parse for the new rules is returned: the themes followed by the
    /// stylesheets.
    pub fn reload_styles(&mut self, sheets: &Vec<String>) -> (r: Option<String>)
        requires
            old(self).wf(),
        ensures
            final(self).wf(),
            final(self).same_but_style_and_resources(old(self)),
            final(self).resource_manager == old(self).resource_manager,
            r is None <==> old(self).resource_manager.themes@.len() == 0 && old(self).resource_manager.stylesheets@.len() == 0,
            r is None ==> final(self).style == old(self).style,
            r matches Some(text) ==> {
                &&& text@ == concat_all(old(self).resource_manager.themes@) + concat_all(sheets@)
                &&& final(self).style.rules() == Seq::<Rule>::empty()
                &&& final(self).style.flags() == (true, true, true)
                &&& final(self).style.font() == old(self).style.font()
                &&& forall|x: Entity| #[trigger] final(self).style.contains(x) == old(self).style.contains(x)
                &&& forall|x: Entity|
                    old(self).style.contains(x) ==> #[trigger] final(self).style.row(x) == (
                    crate::style::StyleRow {
                        resolved: crate::style::Appearance::spec_new(),
                        ..old(self).style.row(x)
                    })
            },
    {
        if self.resource_manager.themes.len() == 0 && self.resource_manager.stylesheets.len() == 0 {
            return None;
        }
        self.style.reload(Vec::new());
        let mut overall_theme = String::new();
        append_all(&mut overall_theme, &self.resource_manager.themes);
        append_all(&mut overall_theme, sheets);
        proof {
            assert(overall_theme@ =~= concat_all(old(self).resource_manager.themes@) + concat_all(
                sheets@,
            ));
        }
        Some(overall_theme)
    }

    /// Registers the theme text `theme` and prepares a reload of the styles, as
    /// [`Context::reload_styles`] does. Returns the text to parse for the new
    /// rules.
    pub fn add_theme(&mut self, theme: &str, sheets: &Vec<String>) -> (text: String)
        requires
            old(self).wf(),
        ensures
            final(self).wf(),
            final(self).same_but_style_and_resources(old(self)),
            final(self).resource_manager.fonts == old(self).resource_manager.fonts,
            final(self).resource_manager.stylesheets == old(self).resource_manager.stylesheets,
            final(self).resource_manager.themes@.len() == old(self).resource_manager.themes@.len()
                + 1,
            final(self).resource_manager.themes@.drop_last() == old(self).resource_manager.themes@,
            final(self).resource_manager.themes@.last()@ == theme@,
            text@ == concat_all(old(self).resource_manager.themes@) + theme@ + concat_all(sheets@),
            final(self).style.rules() == Seq::<Rule>::empty(),
            final(self).style.flags() == (true, true, true),
            final(self).style.font() == old(self).style.font(),
            forall|x: Entity| #[trigger] final(self).style.contains(x) == old(self).style.contains(x),
            forall|x: Entity|
                old(self).style.contains(x) ==> #[trigger] final(self).style.row(x) == (
                crate::style::StyleRow {
                    resolved: crate::style::Appearance::spec_new(),
                    ..old(self).style.row(x)
                }),
    {
        self.resource_manager.themes.push(theme.to_owned());
        proof {
            assert(self.resource_manager.themes@.drop_last() =~= old(self).resource_manager.themes@);
        }
        match self.reload_styles(sheets) {
            Some(text) => text,
            None => {
                assert(false);
                String::new()
            },
        }
    }

    /// Registers the stylesheet at `path`, to be read again whenever the styles are
    /// reloaded, and appends the rules `rules` that were read from it behind the
    /// rules that are there.
    pub fn add_stylesheet(&mut self, path: &str, rules: Vec<Rule>)
        requires
            old(self).wf(),
        ensures
            final(self).wf(),
            final(self).same_but_style_and_resources(old(self)),
            final(self).resource_manager.fonts == old(self).resource_manager.fonts,
            final(self).resource_manager.themes == old(self).resource_manager.themes,
            final(self).resource_manager.stylesheets@.len() == old(self).resource_manager.stylesheets@.len() + 1,
            final(self).resource_manager.stylesheets@.drop_last() == old(self).resource_manager.stylesheets@,
            final(self).resource_manager.stylesheets@.last()@ == path@,
            final(self).style.rules() == old(self).style.rules() + rules@,
            final(self).style.font() == old(self).style.font(),
            final(self).style.flags() == (
                old(self).style.flags().0 || rules@.len() > 0,
                old(self).style.flags().1,
                old(self).style.flags().2,
            ),
            forall|x: Entity| #[trigger] final(self).style.contains(x) == old(self).style.contains(x),
            forall|x: Entity|
                old(self).style.contains(x) ==> final(self).style.row(x) == old(self).style.row(x),
    {
        self.resource_manager.stylesheets.push(path.to_owned());
        proof {
            assert(self.resource_manager.stylesheets@.drop_last() =~= old(self).resource_manager.stylesheets@);
        }
        self.add_rules(rules);
    }

    /// Appends `rules`, in order, behind the rules that are there, and asks for
    /// styles to be resolved anew if there are any.
    pub fn add_rules(&mut self, rules: Vec<Rule>)
        requires
            old(self).wf(),
        ensures
            final(self).wf(),
            final(self).same_but_style_and_resources(old(self)),
            final(self).resource_manager == old(self).resource_manager,
            final(self).style.rules() == old(self).style.rules() + rules@,
            final(self).style.font() == old(self).style.font(),
            final(self).style.flags() == (
                old(self).style.flags().0 || rules@.len() > 0,
                old(self).style.flags().1,
                old(self).style.flags().2,
            ),
            forall|x: Entity| #[trigger] final(self).style.contains(x) == old(self).style.contains(x),
            forall|x: Entity|
                old(self).style.contains(x) ==> final(self).style.row(x) == old(self).style.row(x),
    {
        let mut rules = rules;
        let ghost all = rules@;
        let mut pending: Vec<Rule> = Vec::new();
        // take the rules off the back, then register them front to back
        while rules.len() > 0
            invariant
                rules@ + pending@.reverse() == all,
            decreases rules.len(),
        {
            let ghost before_rules = rules@;
            let ghost before_pending = pending@;
            let rule = rules.pop().unwrap();
            pending.push(rule);
            proof {
                assert(pending@.reverse() =~= seq![rule] + before_pending.reverse());
                assert(before_rules =~= rules@ + seq![rule]);
                assert(rules@ + pending@.reverse() =~= before_rules + before_pending.reverse());
            }
        }
        assert(pending@.reverse() =~= all);
        let ghost start = self.style.rules();
        assert(start + all.take(0) =~= start);
        while pending.len() > 0
            invariant
                self.style.wf(),
                self.same_but_style_and_resources(old(self)),
                self.resource_manager == old(self).resource_manager,
                pending@.reverse() == all.skip(all.len() - pending@.len()),
                pending@.len() <= all.len(),
                self.style.rules() == start + all.take(all.len() - pending@.len()),
                start == old(self).style.rules(),
                self.style.font() == old(self).style.font(),
                self.style.flags() == (
                    old(self).style.flags().0 || pending@.len() < all.len(),
                    old(self).style.flags().1,
                    old(self).style.flags().2,
                ),
                forall|x: Entity| #[trigger] self.style.contains(x) == old(self).style.contains(x),
                forall|x: Entity|
                    old(self).style.contains(x) ==> self.style.row(x) == old(self).style.row(x),
            decreases pending.len(),
        {
            let ghost before_pending = pending@;
            let ghost done = all.len() - pending@.len();
            let rule = pending.pop().unwrap();
            proof {
                assert(before_pending.reverse()[0] == rule);
                assert(all.skip(done)[0] == rule);
                assert(all[done] == rule);
                assert(pending@.reverse() =~= all.skip(done + 1)) by {
                    assert(before_pending.reverse().skip(1) =~= pending@.reverse());
                    assert(all.skip(done).skip(1) =~= all.skip(done + 1));
                }
                assert(all.take(done + 1) =~= all.take(done).push(rule));
                assert((start + all.take(done)).push(rule) =~= start + all.take(done + 1));
            }
            self.style.add_rule(rule);
        }
        assert(all.take(all.len() as int) =~= all);
    }

    /// Attaches `view` to `entity`, in place of the view that was attached. Fails
    /// for an entity that is not live.
    pub fn insert_view(&mut self, entity: Entity, view: V) -> (r: Result<(), crate::storage::StorageError>)
        requires
            old(self).wf(),
        ensures
            final(self).wf(),
            final(self).same_but_views(old(self)),
            r is Ok <==> old(self).entity_manager.is_alive_spec(entity),
            r is Err ==> final(self).views == old(self).views,
            r is Ok ==> {
                &&& final(self).views.contains(entity)
                &&& final(self).views.value(entity) == view
                &&& forall|x: Entity|
                    x != entity ==> final(self).views.contains(x) == old(self).views.contains(x)
                &&& forall|x: Entity|
                    x != entity && old(self).views.contains(x) ==> final(self).views.value(x) == old(self).views.value(x)
            },
    {
        if !self.entity_manager.is_alive(entity) {
            return Err(crate::storage::StorageError::InvalidKey);
        }
        proof {
            self.entity_manager.lemma_alive(entity, entity);
            assert forall|x: Entity| old(self).views.contains(x) && x != entity implies x.index
                != entity.index by {
                self.entity_manager.lemma_alive(entity, x);
            }
        }
        self.views.insert(entity, view)
    }

    /// `self` is `before` but for the views.
    pub open spec fn same_but_views(&self, before: &Self) -> bool {
        &&& self.entity_manager == before.entity_manager
        &&& self.tree == before.tree
        &&& self.current == before.current
        &&& self.count == before.count
        &&& self.lenses == before.lenses
        &&& self.data == before.data
        &&& self.event_queue == before.event_queue
        &&& self.style == before.style
        &&& self.cache == before.cache
        &&& self.enviroment == before.enviroment
        &&& self.mouse == before.mouse
        &&& self.modifiers == before.modifiers
        &&& self.captured == before.captured
        &&& self.hovered == before.hovered
        &&& self.focused == before.focused
        &&& self.resource_manager == before.resource_manager
    }

    /// Files `model` under `tag` in the store of `entity`: in place of the model
    /// that was filed under the tag, or else behind the models that are there.
    /// Returns false, and files nothing, for an entity that is not live.
    pub fn add_model(&mut self, entity: Entity, tag: u64, model: M) -> (added: bool)
        requires
            old(self).wf(),
        ensures
            final(self).wf(),
            final(self).same_but_data(old(self)),
            added == old(self).entity_manager.is_alive_spec(entity),
            !added ==> final(self).data == old(self).data,
            added ==> {
                &&& final(self).data.contains(entity)
                &&& final(self).data.value(entity)@ == if old(self).data.contains(entity) {
                    match find_tag(old(self).data.value(entity)@, tag) {
                        Some(k) => old(self).data.value(entity)@.update(k, ModelEntry { tag, model }),
                        None => old(self).data.value(entity)@.push(ModelEntry { tag, model }),
                    }
                } else {
                    seq![ModelEntry { tag, model }]
                }
                &&& find_tag(final(self).data.value(entity)@, tag) is Some
                &&& forall|x: Entity|
                    x != entity ==> final(self).data.contains(x) == old(self).data.contains(x)
                &&& forall|x: Entity|
                    x != entity && old(self).data.contains(x) ==> final(self).data.value(x) == old(self).data.value(x)
            },
    {
        if !self.entity_manager.is_alive(entity) {
            return false;
        }
        proof {
            self.entity_manager.lemma_alive(entity, entity);
            assert forall|x: Entity| old(self).data.contains(x) && x != entity implies x.index
                != entity.index by {
                self.entity_manager.lemma_alive(entity, x);
            }
        }
        let mut models: Vec<ModelEntry<M>> = match self.data.remove(entity) {
            Some(models) => models,
            None => Vec::new(),
        };
        let ghost before = models@;
        match position_of_tag(&models, tag) {
            Some(k) => {
                models[k] = ModelEntry { tag, model };
                proof {
                    crate::binding::lemma_find_tag(before, tag);
                    crate::binding::lemma_find_tag(models@, tag);
                    assert(models@[k as int].tag == tag);
                }
            },
            None => {
                models.push(ModelEntry { tag, model });
                proof {
                    if !old(self).data.contains(entity) {
                        assert(models@ =~= seq![ModelEntry { tag, model }]);
                    }
                    crate::binding::lemma_find_tag(models@, tag);
                    assert(models@[models@.len() - 1].tag == tag);
                }
            },
        }
        let _ = self.data.insert(entity, models);
        true
    }

    /// Registers a lens under `id`, unless one is registered under it already.
    /// Returns the lens's place in `lenses`.
    pub fn add_lens(&mut self, id: u64) -> (k: usize)
        requires
            old(self).wf(),
        ensures
            final(self).wf(),
            final(self).same_but_lenses(old(self)),
            k < final(self).lenses@.len(),
            final(self).lenses@[k as int].id == id,
            forall|j: int| 0 <= j < k ==> old(self).lenses@[j].id != id,
            k < old(self).lenses@.len() ==> final(self).lenses == old(self).lenses,
            k >= old(self).lenses@.len() ==> {
                &&& k == old(self).lenses@.len()
                &&& final(self).lenses@.drop_last() == old(self).lenses@
                &&& final(self).lenses@.last().previous is None
                &&& final(self).lenses@.last().observers@ == Seq::<Entity>::empty()
            },
    {
        let mut k: usize = 0;
        while k < self.lenses.len()
            invariant
                k <= self.lenses.len(),
                *self == *old(self),
                self.wf(),
                forall|j: int| 0 <= j < k ==> self.lenses@[j].id != id,
            decreases self.lenses.len() - k,
        {
            if self.lenses[k].id == id {
                return k;
            }
            k += 1;
        }
        self.lenses.push(LensState::new(id));
        proof {
            assert(self.lenses@.drop_last() =~= old(self).lenses@);
        }
        k
    }

    /// Has `entity` rebuilt whenever the lens registered under `id` shows another
    /// value, registering the lens if need be. Returns the lens's place in `lenses`.
    pub fn observe(&mut self, id: u64, entity: Entity) -> (k: usize)
        requires
            old(self).wf(),
        ensures
            final(self).wf(),
            final(self).same_but_lenses(old(self)),
            k < final(self).lenses@.len(),
            k <= old(self).lenses@.len(),
            forall|j: int| 0 <= j < k ==> old(self).lenses@[j].id != id,
            final(self).lenses@.len() == if k < old(self).lenses@.len() {
                old(self).lenses@.len()
            } else {
                old(self).lenses@.len() + 1
            },
            forall|j: int|
                0 <= j < old(self).lenses@.len() && j != k ==> final(self).lenses@[j] == old(self).lenses@[j],
            final(self).lenses@[k as int].id == id,
            k < old(self).lenses@.len() ==> old(self).lenses@[k as int].id == id,
            final(self).lenses@[k as int].previous == if k < old(self).lenses@.len() {
                old(self).lenses@[k as int].previous
            } else {
                None
            },
            final(self).lenses@[k as int].observers@ == crate::binding::merged(
                if k < old(self).lenses@.len() {
                    old(self).lenses@[k as int].observers@
                } else {
                    Seq::empty()
                },
                seq![entity],
            ),
            final(self).lenses@[k as int].observers@.contains(entity),
    {
        let k = self.add_lens(id);
        let ghost mid = self.lenses@;
        proof {
            if k >= old(self).lenses@.len() {
                assert forall|j: int| 0 <= j < old(self).lenses@.len() implies mid[j] == old(self).lenses@[j] by {
                    assert(mid.drop_last()[j] == mid[j]);
                }
            }
        }
        self.lenses[k].add_observer(entity);
        k
    }

    /// `self` is `before` but for the style.
    pub open spec fn same_but_style(&self, before: &Self) -> bool {
        &&& self.entity_manager == before.entity_manager
        &&& self.tree == before.tree
        &&& self.current == before.current
        &&& self.count == before.count
        &&& self.views == before.views
        &&& self.lenses == before.lenses
        &&& self.data == before.data
        &&& self.event_queue == before.event_queue
        &&& self.cache == before.cache
        &&& self.enviroment == before.enviroment
        &&& self.mouse == before.mouse
        &&& self.modifiers == before.modifiers
        &&& self.captured == before.captured
        &&& self.hovered == before.hovered
        &&& self.focused == before.focused
        &&& self.resource_manager == before.resource_manager
    }

    /// `self` is `before` but for the cache.
    pub open spec fn same_but_cache(&self, before: &Self) -> bool {
        &&& self.entity_manager == before.entity_manager
        &&& self.tree == before.tree
        &&& self.current == before.current
        &&& self.count == before.count
        &&& self.views == before.views
        &&& self.lenses == before.lenses
        &&& self.data == before.data
        &&& self.event_queue == before.event_queue
        &&& self.style == before.style
        &&& self.enviroment == before.enviroment
        &&& self.mouse == before.mouse
        &&& self.modifiers == before.modifiers
        &&& self.captured == before.captured
        &&& self.hovered == before.hovered
        &&& self.focused == before.focused
        &&& self.resource_manager == before.resource_manager
    }

    /// `self` is `before` but for the cache and the event queue.
    pub open spec fn same_but_cache_and_queue(&self, before: &Self) -> bool {
        &&& self.entity_manager == before.entity_manager
        &&& self.tree == before.tree
        &&& self.current == before.current
        &&& self.count == before.count
        &&& self.views == before.views
        &&& self.lenses == before.lenses
        &&& self.data == before.data
        &&& self.style == before.style
        &&& self.enviroment == before.enviroment
        &&& self.mouse == before.mouse
        &&& self.modifiers == before.modifiers
        &&& self.captured == before.captured
        &&& self.hovered == before.hovered
        &&& self.focused == before.focused
        &&& self.resource_manager == before.resource_manager
    }

    /// `self` is `before` but for the hovered entity, the event queue and the
    /// style.
    pub open spec fn same_but_hover(&self, before: &Self) -> bool {
        &&& self.entity_manager == before.entity_manager
        &&& self.tree == before.tree
        &&& self.current == before.current
        &&& self.count == before.count
        &&& self.views == before.views
        &&& self.lenses == before.lenses
        &&& self.data == before.data
        &&& self.cache == before.cache
        &&& self.enviroment == before.enviroment
        &&& self.mouse == before.mouse
        &&& self.modifiers == before.modifiers
        &&& self.captured == before.captured
        &&& self.focused == before.focused
        &&& self.resource_manager == before.resource_manager
    }

    /// `self` is `before` but for the cache and the style.
    pub open spec fn same_but_cache_and_style(&self, before: &Self) -> bool {
        &&& self.entity_manager == before.entity_manager
        &&& self.tree == before.tree
        &&& self.current == before.current
        &&& self.count == before.count
        &&& self.views == before.views
        &&& self.lenses == before.lenses
        &&& self.data == before.data
        &&& self.event_queue == before.event_queue
        &&& self.enviroment == before.enviroment
        &&& self.mouse == before.mouse
        &&& self.modifiers == before.modifiers
        &&& self.captured == before.captured
        &&& self.hovered == before.hovered
        &&& self.focused == before.focused
        &&& self.resource_manager == before.resource_manager
    }

    /// `self` is `before` but for the mouse, the modifier keys and the event queue.
    pub open spec fn same_but_mouse_and_queue(&self, before: &Self) -> bool {
        &&& self.entity_manager == before.entity_manager
        &&& self.tree == before.tree
        &&& self.current == before.current
        &&& self.count == before.count
        &&& self.views == before.views
        &&& self.lenses == before.lenses
        &&& self.data == before.data
        &&& self.style == before.style
        &&& self.cache == before.cache
        &&& self.enviroment == before.enviroment
        &&& self.captured == before.captured
        &&& self.hovered == before.hovered
        &&& self.focused == before.focused
        &&& self.resource_manager == before.resource_manager
    }

    /// `self` is `before` but for the lenses.
    pub open spec fn same_but_lenses(&self, before: &Self) -> bool {
        &&& self.entity_manager == before.entity_manager
        &&& self.tree == before.tree
        &&& self.current == before.current
        &&& self.count == before.count
        &&& self.views == before.views
        &&& self.data == before.data
        &&& self.event_queue == before.event_queue
        &&& self.style == before.style
        &&& self.cache == before.cache
        &&& self.enviroment == before.enviroment
        &&& self.mouse == before.mouse
        &&& self.modifiers == before.modifiers
        &&& self.captured == before.captured
        &&& self.hovered == before.hovered
        &&& self.focused == before.focused
        &&& self.resource_manager == before.resource_manager
    }
}

} // verus!
