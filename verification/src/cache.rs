use crate::entity::{lemma_skip_contains, Entity};
use crate::storage::{SparseSet, StorageError};
use vstd::prelude::*;

verus! {

/// How many units of a [`Transform2D`] coefficient make one.
pub const TRANSFORM_ONE: i32 = 65536;

/// What a fully opaque entity has as its opacity; 0 is fully transparent.
pub const OPAQUE: u8 = 255;

/// Whether an entity is painted.
#[derive(Clone, Copy, Debug, PartialEq, Eq, Structural)]
pub enum Visibility {
    Visible,
    Invisible,
}

/// Whether an entity takes part in layout and painting at all.
#[derive(Clone, Copy, Debug, PartialEq, Eq, Structural)]
pub enum Display {
    /// Laid out and painted.
    Shown,
    /// Left out of layout and painting, with everything below it.
    Gone,
}

/// A rectangle in whole layout units.
#[derive(Clone, Copy, Debug, PartialEq, Eq, Structural)]
pub struct BoundingBox {
    pub x: i32,
    pub y: i32,
    pub w: i32,
    pub h: i32,
}

impl BoundingBox {
    /// The rectangle without extent at the origin.
    pub open spec fn spec_zero() -> BoundingBox {
        BoundingBox { x: 0, y: 0, w: 0, h: 0 }
    }

    #[verifier::when_used_as_spec(spec_zero)]
    pub fn zero() -> (b: BoundingBox)
        ensures
            b == BoundingBox::spec_zero(),
    {
        BoundingBox { x: 0, y: 0, w: 0, h: 0 }
    }
}

/// A 2-D affine map `(x, y) -> (a*x + c*y + e, b*x + d*y + f)`, its coefficients
/// counted in units of `1 / TRANSFORM_ONE`.
#[derive(Clone, Copy, Debug, PartialEq, Eq, Structural)]
pub struct Transform2D {
    pub a: i32,
    pub b: i32,
    pub c: i32,
    pub d: i32,
    pub e: i32,
    pub f: i32,
}

impl Transform2D {
    /// The transform that leaves every point where it is.
    pub open spec fn spec_identity() -> Transform2D {
        Transform2D { a: TRANSFORM_ONE, b: 0, c: 0, d: TRANSFORM_ONE, e: 0, f: 0 }
    }

    #[verifier::when_used_as_spec(spec_identity)]
    pub fn identity() -> (t: Transform2D)
        ensures
            t == Transform2D::spec_identity(),
    {
        Transform2D { a: TRANSFORM_ONE, b: 0, c: 0, d: TRANSFORM_ONE, e: 0, f: 0 }
    }
}

/// Everything the cache holds for one entity.
#[derive(Clone, Copy, Debug, PartialEq, Eq, Structural)]
pub struct CacheRow {
    pub posx: i32,
    pub posy: i32,
    pub width: i32,
    pub height: i32,
    pub previous: BoundingBox,
    pub clip_region: BoundingBox,
    pub transform: Transform2D,
    pub opacity: u8,
    pub z_index: i32,
    pub visibility: Visibility,
    pub display: Display,
    pub hoverable: bool,
}

impl CacheRow {
    /// The row of an entity about which nothing has been computed yet: no size, at
    /// the origin, untransformed, opaque, visible, shown, at stacking level 0.
    pub open spec fn spec_new() -> CacheRow {
        CacheRow {
            posx: 0,
            posy: 0,
            width: 0,
            height: 0,
            previous: BoundingBox::spec_zero(),
            clip_region: BoundingBox::spec_zero(),
            transform: Transform2D::spec_identity(),
            opacity: OPAQUE,
            z_index: 0,
            visibility: Visibility::Visible,
            display: Display::Shown,
            hoverable: true,
        }
    }

    /// The row of an entity about which nothing has been computed yet.
    #[verifier::when_used_as_spec(spec_new)]
    pub fn new() -> (r: CacheRow)
        ensures
            r == CacheRow::spec_new(),
    {
        CacheRow {
            posx: 0,
            posy: 0,
            width: 0,
            height: 0,
            previous: BoundingBox::zero(),
            clip_region: BoundingBox::zero(),
            transform: Transform2D::identity(),
            opacity: OPAQUE,
            z_index: 0,
            visibility: Visibility::Visible,
            display: Display::Shown,
            hoverable: true,
        }
    }

    /// Position and size as one rectangle.
    pub open spec fn bounds(self) -> BoundingBox {
        BoundingBox { x: self.posx, y: self.posy, w: self.width, h: self.height }
    }
}

/// Why a row could not be added to the cache.
#[derive(Clone, Copy, Debug, PartialEq, Eq, Structural)]
pub enum CacheError {
    /// The entity already has a row.
    AlreadyExists,
    /// The entity's slot number is the reserved one that no live entity has.
    InvalidEntity,
}

/// The computed state of the interface: one row of layout and paint results per
/// entity. A query about an entity without a row answers with the defaults.
pub struct CachedData {
    rows: SparseSet<CacheRow>,
}

impl CachedData {
    /// The rows are kept consistently.
    pub closed spec fn wf(&self) -> bool {
        self.rows.wf()
    }

    /// Whether `e` has a row.
    pub closed spec fn contains(&self, e: Entity) -> bool {
        self.rows.contains(e)
    }

    /// Whether some handle of slot `index` has a row.
    pub closed spec fn occupied(&self, index: u32) -> bool {
        self.rows.occupied(index)
    }

    /// What the cache answers about `e`: its row, or the defaults.
    pub closed spec fn row(&self, e: Entity) -> CacheRow {
        if self.rows.contains(e) {
            self.rows.value(e)
        } else {
            CacheRow::spec_new()
        }
    }

    /// `self` differs from `before` at most in the row of `e`, which it has if and
    /// only if `before` has it.
    pub open spec fn changed_only(&self, before: &CachedData, e: Entity) -> bool {
        &&& forall|x: Entity| #[trigger] self.contains(x) == before.contains(x)
        &&& forall|i: u32| self.occupied(i) == before.occupied(i)
        &&& forall|x: Entity| x != e ==> self.row(x) == before.row(x)
    }

    /// An entity without a row is answered with the defaults.
    pub proof fn lemma_absent_is_default(&self, e: Entity)
        requires
            !self.contains(e),
        ensures
            self.row(e) == CacheRow::spec_new(),
    {
    }

    /// A handle that has a row has its slot occupied.
    pub proof fn lemma_contains_occupied(&self, e: Entity)
        requires
            self.wf(),
            self.contains(e),
        ensures
            self.occupied(e.index),
    {
        self.rows.lemma_keys();
    }

    /// Whether the rows are kept consistently. They are, unless the cache was
    /// tampered with.
    pub fn check(&self) -> (b: bool)
        ensures
            b == self.wf(),
    {
        self.rows.check()
    }

    /// The entities that have a row, in the order in which the rows are kept.
    pub closed spec fn keys(&self) -> Seq<Entity> {
        self.rows.keys()
    }

    /// The entities that have a row are those that `keys` lists.
    pub proof fn lemma_keys(&self, e: Entity)
        requires
            self.wf(),
        ensures
            self.contains(e) == self.keys().contains(e),
    {
        self.rows.lemma_keys();
        if self.contains(e) {
            assert(self.keys()[self.rows.position(e)] == e);
        }
    }

    /// The number of rows.
    pub fn len(&self) -> (n: usize)
        ensures
            n == self.keys().len(),
    {
        self.rows.len()
    }

    /// The entity of the `k`-th row.
    pub fn key_at(&self, k: usize) -> (e: Entity)
        requires
            k < self.keys().len(),
        ensures
            e == self.keys()[k as int],
    {
        self.rows.key_at(k)
    }

    /// A cache without rows.
    pub fn new() -> (c: Self)
        ensures
            c.wf(),
            forall|e: Entity| !c.contains(e),
            forall|i: u32| !c.occupied(i),
    {
        CachedData { rows: SparseSet::new() }
    }

    /// Whether `entity` has a row.
    pub fn has(&self, entity: Entity) -> (b: bool)
        ensures
            b == self.contains(entity),
    {
        self.rows.contains_key(entity)
    }

    /// Gives `entity` a row of defaults. An entity that has a row keeps it, and the
    /// call fails.
    pub fn add(&mut self, entity: Entity) -> (r: Result<(), CacheError>)
        requires
            old(self).wf(),
        ensures
            final(self).wf(),
            r == Err::<(), CacheError>(CacheError::AlreadyExists) <==> old(self).contains(entity),
            r == Err::<(), CacheError>(CacheError::InvalidEntity) <==> !old(self).contains(entity)
                && entity.index == u32::MAX,
            r is Ok <==> !old(self).contains(entity) && entity.index != u32::MAX,
            r is Err ==> *final(self) == *old(self),
            r is Ok ==> {
                &&& final(self).contains(entity)
                &&& final(self).row(entity) == CacheRow::spec_new()
                &&& forall|x: Entity|
                    final(self).contains(x) == (x == entity || (old(self).contains(x) && x.index
                        != entity.index))
                &&& forall|i: u32|
                    final(self).occupied(i) == (i == entity.index || old(self).occupied(i))
                &&& forall|x: Entity|
                    x.index != entity.index ==> final(self).row(x) == old(self).row(x)
            },
    {
        if self.rows.contains_key(entity) {
            return Err(CacheError::AlreadyExists);
        }
        match self.rows.insert(entity, CacheRow::new()) {
            Ok(()) => Ok(()),
            Err(StorageError::InvalidKey) => Err(CacheError::InvalidEntity),
        }
    }

    /// Drops the row of `entity`; from then on it is answered with the defaults.
    pub fn remove(&mut self, entity: Entity) -> (had_row: bool)
        requires
            old(self).wf(),
        ensures
            final(self).wf(),
            had_row == old(self).contains(entity),
            !final(self).contains(entity),
            final(self).row(entity) == CacheRow::spec_new(),
            forall|x: Entity| #[trigger] final(self).contains(x) == (old(self).contains(x) && x != entity),
            forall|i: u32|
                final(self).occupied(i) == (old(self).occupied(i) && !(i == entity.index && old(self).contains(entity))),
            forall|x: Entity| x != entity ==> final(self).row(x) == old(self).row(x),
    {
        let ghost before = *self;
        let r = self.rows.remove(entity);
        proof {
            if r is None {
                assert(self.rows == before.rows);
            }
            before.rows.lemma_keys();
        }
        r.is_some()
    }

    /// Drops the rows of all of `entities`, the last listed first.
    pub fn remove_each(&mut self, entities: &Vec<Entity>)
        requires
            old(self).wf(),
        ensures
            final(self).wf(),
            forall|x: Entity|
                #[trigger] final(self).contains(x) == (old(self).contains(x) && !entities@.contains(
                    x,
                )),
            forall|x: Entity|
                !entities@.contains(x) ==> #[trigger] final(self).row(x) == old(self).row(x),
            forall|x: Entity|
                entities@.contains(x) ==> #[trigger] final(self).row(x) == CacheRow::spec_new(),
    {
        let mut k: usize = entities.len();
        proof {
            lemma_skip_contains(entities@, entities@.len() as int);
        }
        while k > 0
            invariant
                k <= entities.len(),
                self.wf(),
                forall|x: Entity|
                    self.contains(x) == (old(self).contains(x) && !entities@.skip(k as int).contains(
                        x,
                    )),
                forall|x: Entity|
                    !entities@.skip(k as int).contains(x) ==> self.row(x) == old(self).row(x),
                forall|x: Entity|
                    entities@.skip(k as int).contains(x) ==> self.row(x) == CacheRow::spec_new(),
            decreases k,
        {
            proof {
                lemma_skip_contains(entities@, k as int);
            }
            k -= 1;
            self.remove(entities[k]);
        }
        proof {
            lemma_skip_contains(entities@, 0);
        }
    }

    /// Position and size of `entity` as one rectangle.
    pub fn get_bounds(&self, entity: Entity) -> (b: BoundingBox)
        ensures
            b == self.row(entity).bounds(),
            !self.contains(entity) ==> b == BoundingBox::spec_zero(),
    {
        match self.rows.get(entity) {
            Some(row) => BoundingBox { x: row.posx, y: row.posy, w: row.width, h: row.height },
            None => BoundingBox { x: 0, y: 0, w: 0, h: 0 },
        }
    }

    /// The whole row of `entity`, or the defaults.
    pub fn get_row(&self, entity: Entity) -> (r: CacheRow)
        ensures
            r == self.row(entity),
            !self.contains(entity) ==> r == CacheRow::spec_new(),
    {
        match self.rows.get(entity) {
            Some(row) => *row,
            None => CacheRow::new(),
        }
    }

    /// Reads the horizontal position of `entity`, or the default where the entity has no row.
    pub fn get_posx(&self, entity: Entity) -> (v: i32)
        ensures
            v == self.row(entity).posx,
            !self.contains(entity) ==> v == CacheRow::spec_new().posx,
    {
        match self.rows.get(entity) {
            Some(row) => row.posx,
            None => CacheRow::new().posx,
        }
    }

    /// Sets the horizontal position of `entity`. An entity without a row is left without one.
    pub fn set_posx(&mut self, entity: Entity, value: i32)
        requires
            old(self).wf(),
        ensures
            final(self).wf(),
            final(self).changed_only(old(self), entity),
            final(self).row(entity) == if old(self).contains(entity) {
                (CacheRow { posx: value, ..old(self).row(entity) })
            } else {
                old(self).row(entity)
            },
    {
        match self.rows.get_mut(entity) {
            Some(row) => {
                row.posx = value;
            },
            None => {},
        }
    }

    /// Reads the vertical position of `entity`, or the default where the entity has no row.
    pub fn get_posy(&self, entity: Entity) -> (v: i32)
        ensures
            v == self.row(entity).posy,
            !self.contains(entity) ==> v == CacheRow::spec_new().posy,
    {
        match self.rows.get(entity) {
            Some(row) => row.posy,
            None => CacheRow::new().posy,
        }
    }

    /// Sets the vertical position of `entity`. An entity without a row is left without one.
    pub fn set_posy(&mut self, entity: Entity, value: i32)
        requires
            old(self).wf(),
        ensures
            final(self).wf(),
            final(self).changed_only(old(self), entity),
            final(self).row(entity) == if old(self).contains(entity) {
                (CacheRow { posy: value, ..old(self).row(entity) })
            } else {
                old(self).row(entity)
            },
    {
        match self.rows.get_mut(entity) {
            Some(row) => {
                row.posy = value;
            },
            None => {},
        }
    }

    /// Reads the width of `entity`, or the default where the entity has no row.
    pub fn get_width(&self, entity: Entity) -> (v: i32)
        ensures
            v == self.row(entity).width,
            !self.contains(entity) ==> v == CacheRow::spec_new().width,
    {
        match self.rows.get(entity) {
            Some(row) => row.width,
            None => CacheRow::new().width,
        }
    }

    /// Sets the width of `entity`. An entity without a row is left without one.
    pub fn set_width(&mut self, entity: Entity, value: i32)
        requires
            old(self).wf(),
        ensures
            final(self).wf(),
            final(self).changed_only(old(self), entity),
            final(self).row(entity) == if old(self).contains(entity) {
                (CacheRow { width: value, ..old(self).row(entity) })
            } else {
                old(self).row(entity)
            },
    {
        match self.rows.get_mut(entity) {
            Some(row) => {
                row.width = value;
            },
            None => {},
        }
    }

    /// Reads the height of `entity`, or the default where the entity has no row.
    pub fn get_height(&self, entity: Entity) -> (v: i32)
        ensures
            v == self.row(entity).height,
            !self.contains(entity) ==> v == CacheRow::spec_new().height,
    {
        match self.rows.get(entity) {
            Some(row) => row.height,
            None => CacheRow::new().height,
        }
    }

    /// Sets the height of `entity`. An entity without a row is left without one.
    pub fn set_height(&mut self, entity: Entity, value: i32)
        requires
            old(self).wf(),
        ensures
            final(self).wf(),
            final(self).changed_only(old(self), entity),
            final(self).row(entity) == if old(self).contains(entity) {
                (CacheRow { height: value, ..old(self).row(entity) })
            } else {
                old(self).row(entity)
            },
    {
        match self.rows.get_mut(entity) {
            Some(row) => {
                row.height = value;
            },
            None => {},
        }
    }

    /// Reads the bounds that were current when geometry changes were last reported of `entity`, or the default where the entity has no row.
    pub fn get_previous(&self, entity: Entity) -> (v: BoundingBox)
        ensures
            v == self.row(entity).previous,
            !self.contains(entity) ==> v == CacheRow::spec_new().previous,
    {
        match self.rows.get(entity) {
            Some(row) => row.previous,
            None => CacheRow::new().previous,
        }
    }

    /// Sets the bounds that were current when geometry changes were last reported of `entity`. An entity without a row is left without one.
    pub fn set_previous(&mut self, entity: Entity, value: BoundingBox)
        requires
            old(self).wf(),
        ensures
            final(self).wf(),
            final(self).changed_only(old(self), entity),
            final(self).row(entity) == if old(self).contains(entity) {
                (CacheRow { previous: value, ..old(self).row(entity) })
            } else {
                old(self).row(entity)
            },
    {
        match self.rows.get_mut(entity) {
            Some(row) => {
                row.previous = value;
            },
            None => {},
        }
    }

    /// Reads the clip rectangle of `entity`, or the default where the entity has no row.
    pub fn get_clip_region(&self, entity: Entity) -> (v: BoundingBox)
        ensures
            v == self.row(entity).clip_region,
            !self.contains(entity) ==> v == CacheRow::spec_new().clip_region,
    {
        match self.rows.get(entity) {
            Some(row) => row.clip_region,
            None => CacheRow::new().clip_region,
        }
    }

    /// Sets the clip rectangle of `entity`. An entity without a row is left without one.
    pub fn set_clip_region(&mut self, entity: Entity, value: BoundingBox)
        requires
            old(self).wf(),
        ensures
            final(self).wf(),
            final(self).changed_only(old(self), entity),
            final(self).row(entity) == if old(self).contains(entity) {
                (CacheRow { clip_region: value, ..old(self).row(entity) })
            } else {
                old(self).row(entity)
            },
    {
        match self.rows.get_mut(entity) {
            Some(row) => {
                row.clip_region = value;
            },
            None => {},
        }
    }

    /// Reads the transform of `entity`, or the default where the entity has no row.
    pub fn get_transform(&self, entity: Entity) -> (v: Transform2D)
        ensures
            v == self.row(entity).transform,
            !self.contains(entity) ==> v == CacheRow::spec_new().transform,
    {
        match self.rows.get(entity) {
            Some(row) => row.transform,
            None => CacheRow::new().transform,
        }
    }

    /// Sets the transform of `entity`. An entity without a row is left without one.
    pub fn set_transform(&mut self, entity: Entity, value: Transform2D)
        requires
            old(self).wf(),
        ensures
            final(self).wf(),
            final(self).changed_only(old(self), entity),
            final(self).row(entity) == if old(self).contains(entity) {
                (CacheRow { transform: value, ..old(self).row(entity) })
            } else {
                old(self).row(entity)
            },
    {
        match self.rows.get_mut(entity) {
            Some(row) => {
                row.transform = value;
            },
            None => {},
        }
    }

    /// Reads the opacity of `entity`, or the default where the entity has no row.
    pub fn get_opacity(&self, entity: Entity) -> (v: u8)
        ensures
            v == self.row(entity).opacity,
            !self.contains(entity) ==> v == CacheRow::spec_new().opacity,
    {
        match self.rows.get(entity) {
            Some(row) => row.opacity,
            None => CacheRow::new().opacity,
        }
    }

    /// Sets the opacity of `entity`. An entity without a row is left without one.
    pub fn set_opacity(&mut self, entity: Entity, value: u8)
        requires
            old(self).wf(),
        ensures
            final(self).wf(),
            final(self).changed_only(old(self), entity),
            final(self).row(entity) == if old(self).contains(entity) {
                (CacheRow { opacity: value, ..old(self).row(entity) })
            } else {
                old(self).row(entity)
            },
    {
        match self.rows.get_mut(entity) {
            Some(row) => {
                row.opacity = value;
            },
            None => {},
        }
    }

    /// Reads the stacking level of `entity`, or the default where the entity has no row.
    pub fn get_z_index(&self, entity: Entity) -> (v: i32)
        ensures
            v == self.row(entity).z_index,
            !self.contains(entity) ==> v == CacheRow::spec_new().z_index,
    {
        match self.rows.get(entity) {
            Some(row) => row.z_index,
            None => CacheRow::new().z_index,
        }
    }

    /// Sets the stacking level of `entity`. An entity without a row is left without one.
    pub fn set_z_index(&mut self, entity: Entity, value: i32)
        requires
            old(self).wf(),
        ensures
            final(self).wf(),
            final(self).changed_only(old(self), entity),
            final(self).row(entity) == if old(self).contains(entity) {
                (CacheRow { z_index: value, ..old(self).row(entity) })
            } else {
                old(self).row(entity)
            },
    {
        match self.rows.get_mut(entity) {
            Some(row) => {
                row.z_index = value;
            },
            None => {},
        }
    }

    /// Reads the visibility of `entity`, or the default where the entity has no row.
    pub fn get_visibility(&self, entity: Entity) -> (v: Visibility)
        ensures
            v == self.row(entity).visibility,
            !self.contains(entity) ==> v == CacheRow::spec_new().visibility,
    {
        match self.rows.get(entity) {
            Some(row) => row.visibility,
            None => CacheRow::new().visibility,
        }
    }

    /// Sets the visibility of `entity`. An entity without a row is left without one.
    pub fn set_visibility(&mut self, entity: Entity, value: Visibility)
        requires
            old(self).wf(),
        ensures
            final(self).wf(),
            final(self).changed_only(old(self), entity),
            final(self).row(entity) == if old(self).contains(entity) {
                (CacheRow { visibility: value, ..old(self).row(entity) })
            } else {
                old(self).row(entity)
            },
    {
        match self.rows.get_mut(entity) {
            Some(row) => {
                row.visibility = value;
            },
            None => {},
        }
    }

    /// Reads the display mode of `entity`, or the default where the entity has no row.
    pub fn get_display(&self, entity: Entity) -> (v: Display)
        ensures
            v == self.row(entity).display,
            !self.contains(entity) ==> v == CacheRow::spec_new().display,
    {
        match self.rows.get(entity) {
            Some(row) => row.display,
            None => CacheRow::new().display,
        }
    }

    /// Sets the display mode of `entity`. An entity without a row is left without one.
    pub fn set_display(&mut self, entity: Entity, value: Display)
        requires
            old(self).wf(),
        ensures
            final(self).wf(),
            final(self).changed_only(old(self), entity),
            final(self).row(entity) == if old(self).contains(entity) {
                (CacheRow { display: value, ..old(self).row(entity) })
            } else {
                old(self).row(entity)
            },
    {
        match self.rows.get_mut(entity) {
            Some(row) => {
                row.display = value;
            },
            None => {},
        }
    }

    /// Reads whether the pointer can rest on the entity of `entity`, or the default where the entity has no row.
    pub fn get_hoverable(&self, entity: Entity) -> (v: bool)
        ensures
            v == self.row(entity).hoverable,
            !self.contains(entity) ==> v == CacheRow::spec_new().hoverable,
    {
        match self.rows.get(entity) {
            Some(row) => row.hoverable,
            None => CacheRow::new().hoverable,
        }
    }

    /// Sets whether the pointer can rest on the entity of `entity`. An entity without a row is left without one.
    pub fn set_hoverable(&mut self, entity: Entity, value: bool)
        requires
            old(self).wf(),
        ensures
            final(self).wf(),
            final(self).changed_only(old(self), entity),
            final(self).row(entity) == if old(self).contains(entity) {
                (CacheRow { hoverable: value, ..old(self).row(entity) })
            } else {
                old(self).row(entity)
            },
    {
        match self.rows.get_mut(entity) {
            Some(row) => {
                row.hoverable = value;
            },
            None => {},
        }
    }
}

} // verus!
