use vstd::prelude::*;

verus! {

/// A handle to a node of the interface.
///
/// `index` names a slot of the arena, `generation` tells successive occupants of
/// that slot apart: a handle whose generation is not the slot's current one is stale.
#[derive(Clone, Copy, Debug, PartialEq, Eq, Hash, Structural)]
pub struct Entity {
    pub index: u32,
    pub generation: u32,
}

impl Entity {
    /// The root of every tree: slot 0, first generation.
    pub open spec fn spec_root() -> Entity {
        Entity { index: 0, generation: 0 }
    }

    /// The handle that stands for "no entity".
    pub open spec fn spec_null() -> Entity {
        Entity { index: u32::MAX, generation: u32::MAX }
    }

    #[verifier::when_used_as_spec(spec_root)]
    pub fn root() -> (e: Entity)
        ensures
            e == Entity::spec_root(),
    {
        Entity { index: 0, generation: 0 }
    }

    #[verifier::when_used_as_spec(spec_null)]
    pub fn null() -> (e: Entity)
        ensures
            e == Entity::spec_null(),
    {
        Entity { index: u32::MAX, generation: u32::MAX }
    }

    /// The handle of slot `index` under `generation`.
    pub fn new(index: u32, generation: u32) -> (e: Entity)
        ensures
            e.index == index,
            e.generation == generation,
    {
        Entity { index, generation }
    }

    pub fn index(&self) -> (i: u32)
        ensures
            i == self.index,
    {
        self.index
    }

    pub fn generation(&self) -> (g: u32)
        ensures
            g == self.generation,
    {
        self.generation
    }

    pub fn is_null(&self) -> (b: bool)
        ensures
            b == (*self == Entity::spec_null()),
    {
        self.index == u32::MAX && self.generation == u32::MAX
    }
}

/// Hands out entity handles and takes them back.
///
/// A slot that is given up is reused under the next generation, so a handle that
/// was destroyed never becomes live again.
pub struct IdManager {
    /// Per slot: the generation of its live handle, or of the next one to issue.
    generations: Vec<u32>,
    /// Per slot: whether its current generation is live.
    alive: Vec<bool>,
    /// Slots that can be issued again.
    free: Vec<u32>,
}

impl IdManager {
    /// The arena's bookkeeping is consistent: a slot that can be issued again is not
    /// live, and no slot is listed twice as free.
    pub closed spec fn wf(&self) -> bool {
        &&& self.generations.len() == self.alive.len()
        &&& self.generations.len() <= u32::MAX
        &&& forall|i: int| 0 <= i < self.alive.len() && self.alive[i] ==> self.generations[i] < u32::MAX
        &&& forall|k: int|
            0 <= k < self.free.len() ==> {
                &&& (#[trigger] self.free[k]) < self.alive.len()
                &&& !self.alive[self.free[k] as int]
                &&& self.generations[self.free[k] as int] < u32::MAX
            }
        &&& forall|j: int, k: int|
            0 <= j < k < self.free.len() ==> self.free[j] != self.free[k]
    }

    /// `e` is the live occupant of its slot.
    pub closed spec fn is_alive_spec(&self, e: Entity) -> bool {
        &&& e.index < self.alive.len()
        &&& self.alive[e.index as int]
        &&& self.generations[e.index as int] == e.generation
    }

    /// `e` has been handed out at some time, whether or not it is still live.
    pub closed spec fn issued(&self, e: Entity) -> bool {
        &&& e.index < self.alive.len()
        &&& (e.generation < self.generations[e.index as int] || (self.alive[e.index as int]
            && e.generation == self.generations[e.index as int]))
    }

    /// No handle can be issued any more: every slot is taken and none is free.
    pub open spec fn is_full(&self) -> bool {
        self.free_slots().len() == 0 && self.slots() == u32::MAX
    }

    /// The number of slots that have ever been used.
    pub closed spec fn slots(&self) -> nat {
        self.alive.len() as nat
    }

    /// The slots that were given up and can be issued again; the last one is issued
    /// first.
    pub closed spec fn free_slots(&self) -> Seq<u32> {
        self.free@
    }

    /// The generation under which slot `index` is live, or will be issued next.
    pub closed spec fn generation_of(&self, index: u32) -> u32 {
        self.generations[index as int]
    }

    /// The handle that `create` issues next: the last slot that was given up, under
    /// its next generation, or else a new slot under generation 0.
    pub open spec fn next_handle(&self) -> Entity {
        if self.free_slots().len() > 0 {
            Entity {
                index: self.free_slots().last(),
                generation: self.generation_of(self.free_slots().last()),
            }
        } else {
            Entity { index: self.slots() as u32, generation: 0 }
        }
    }

    /// An arena that has used a single slot can issue more handles.
    pub proof fn lemma_not_full(&self)
        requires
            self.slots() <= 1,
        ensures
            !self.is_full(),
    {
    }

    /// A slot has at most one live handle, a live handle was issued, and its slot
    /// number is never the reserved one.
    pub proof fn lemma_alive(&self, a: Entity, b: Entity)
        requires
            self.wf(),
            self.is_alive_spec(a),
        ensures
            self.issued(a),
            a.index < u32::MAX,
            a != Entity::spec_null(),
            self.is_alive_spec(b) && a.index == b.index ==> a == b,
    {
    }

    /// An arena that has issued nothing yet.
    pub fn new() -> (m: Self)
        ensures
            m.wf(),
            m.slots() == 0,
            m.free_slots() == Seq::<u32>::empty(),
            !m.is_full(),
            forall|e: Entity| !m.issued(e) && !m.is_alive_spec(e),
    {
        IdManager { generations: Vec::new(), alive: Vec::new(), free: Vec::new() }
    }

    /// Whether the arena's bookkeeping is consistent. It is, unless the arena was
    /// tampered with.
    pub fn check(&self) -> (b: bool)
        ensures
            b == self.wf(),
    {
        if self.generations.len() != self.alive.len() || self.generations.len() > u32::MAX as usize {
            return false;
        }
        let mut i: usize = 0;
        while i < self.alive.len()
            invariant
                i <= self.alive.len(),
                self.generations.len() == self.alive.len(),
                forall|k: int| 0 <= k < i && self.alive[k] ==> self.generations[k] < u32::MAX,
            decreases self.alive.len() - i,
        {
            if self.alive[i] && self.generations[i] == u32::MAX {
                return false;
            }
            i += 1;
        }
        let mut k: usize = 0;
        while k < self.free.len()
            invariant
                k <= self.free.len(),
                self.generations.len() == self.alive.len(),
                forall|m: int|
                    0 <= m < k ==> {
                        &&& (#[trigger] self.free[m]) < self.alive.len()
                        &&& !self.alive[self.free[m] as int]
                        &&& self.generations[self.free[m] as int] < u32::MAX
                    },
                forall|a: int, b: int| 0 <= a < b < k ==> self.free[a] != self.free[b],
            decreases self.free.len() - k,
        {
            let slot: usize = self.free[k] as usize;
            if slot >= self.alive.len() || self.alive[slot] || self.generations[slot] == u32::MAX {
                assert(!({
                    &&& self.free[k as int] < self.alive.len()
                    &&& !self.alive[self.free[k as int] as int]
                    &&& self.generations[self.free[k as int] as int] < u32::MAX
                }));
                return false;
            }
            let mut j: usize = 0;
            while j < k
                invariant
                    j <= k < self.free.len(),
                    forall|a: int| 0 <= a < j ==> self.free[a] != self.free[k as int],
                decreases k - j,
            {
                if self.free[j] == self.free[k] {
                    return false;
                }
                j += 1;
            }
            k += 1;
        }
        true
    }

    /// Whether `e` is the live occupant of its slot.
    #[verifier::when_used_as_spec(is_alive_spec)]
    pub fn is_alive(&self, e: Entity) -> (b: bool)
        requires
            self.wf(),
        ensures
            b == self.is_alive_spec(e),
    {
        let i: usize = e.index as usize;
        i < self.alive.len() && self.alive[i] && self.generations[i] == e.generation
    }

    /// Issues a handle that was never issued before, or `None` when the arena is
    /// exhausted.
    pub fn create(&mut self) -> (r: Option<Entity>)
        requires
            old(self).wf(),
        ensures
            final(self).wf(),
            r is None <==> old(self).is_full(),
            r is None ==> *final(self) == *old(self),
            r matches Some(e) ==> {
                &&& e == old(self).next_handle()
                &&& final(self).free_slots() == if old(self).free_slots().len() > 0 {
                    old(self).free_slots().drop_last()
                } else {
                    old(self).free_slots()
                }
                &&& forall|i: u32|
                    i < old(self).slots() ==> final(self).generation_of(i) == old(self).generation_of(
                        i,
                    )
                &&& final(self).generation_of(e.index) == e.generation
                &&& !old(self).issued(e)
                &&& final(self).is_alive_spec(e)
                &&& e != Entity::spec_null()
                &&& forall|x: Entity| x != e ==> final(self).is_alive_spec(x) == old(self).is_alive_spec(x)
                &&& forall|x: Entity| final(self).issued(x) == (old(self).issued(x) || x == e)
                &&& final(self).slots() == if old(self).free_slots().len() > 0 {
                    old(self).slots()
                } else {
                    old(self).slots() + 1
                }
            },
    {
        if self.free.len() > 0 {
            let ghost before = *self;
            let slot: u32 = self.free.pop().unwrap();
            let i: usize = slot as usize;
            let generation: u32 = self.generations[i];
            self.alive.set(i, true);
            let e = Entity { index: slot, generation };
            proof {
                assert(before.free[before.free.len() - 1] == slot);
                assert forall|k: int| 0 <= k < self.free.len() implies {
                    &&& (#[trigger] self.free[k]) < self.alive.len()
                    &&& !self.alive[self.free[k] as int]
                    &&& self.generations[self.free[k] as int] < u32::MAX
                } by {
                    assert(self.free[k] == before.free[k]);
                    assert(before.free[k] != before.free[before.free.len() - 1]);
                }
                assert forall|x: Entity| self.issued(x) == (before.issued(x) || x == e) by {
                    if x.index == slot {
                    }
                }
            }
            Some(e)
        } else if self.alive.len() < u32::MAX as usize {
            let slot: u32 = self.alive.len() as u32;
            self.generations.push(0);
            self.alive.push(true);
            let e = Entity { index: slot, generation: 0 };
            Some(e)
        } else {
            None
        }
    }

    /// Takes every handle of `entities` out of use, the last listed first.
    pub fn destroy_each(&mut self, entities: &Vec<Entity>)
        requires
            old(self).wf(),
        ensures
            final(self).wf(),
            forall|x: Entity|
                #[trigger] final(self).is_alive_spec(x) == (old(self).is_alive_spec(x)
                    && !entities@.contains(x)),
            forall|x: Entity| final(self).issued(x) == old(self).issued(x),
            final(self).slots() == old(self).slots(),
    {
        let mut k: usize = entities.len();
        proof {
            lemma_skip_contains(entities@, entities@.len() as int);
        }
        while k > 0
            invariant
                k <= entities.len(),
                self.wf(),
                forall|x: Entity|
                    self.is_alive_spec(x) == (old(self).is_alive_spec(x) && !entities@.skip(
                        k as int,
                    ).contains(x)),
                forall|x: Entity| self.issued(x) == old(self).issued(x),
                self.slots() == old(self).slots(),
            decreases k,
        {
            proof {
                lemma_skip_contains(entities@, k as int);
            }
            k -= 1;
            self.destroy(entities[k]);
        }
        proof {
            lemma_skip_contains(entities@, 0);
        }
    }

    /// Takes a live handle out of use. Returns whether `e` was live.
    pub fn destroy(&mut self, e: Entity) -> (was_alive: bool)
        requires
            old(self).wf(),
        ensures
            final(self).wf(),
            was_alive == old(self).is_alive_spec(e),
            !was_alive ==> *final(self) == *old(self),
            was_alive ==> {
                &&& final(self).generation_of(e.index) == e.generation + 1
                &&& forall|i: u32|
                    i < old(self).slots() && i != e.index ==> final(self).generation_of(i) == old(self).generation_of(i)
                &&& final(self).free_slots() == if e.generation + 1 < u32::MAX {
                    old(self).free_slots().push(e.index)
                } else {
                    old(self).free_slots()
                }
            },
            forall|x: Entity| final(self).is_alive_spec(x) == (old(self).is_alive_spec(x) && x != e),
            forall|x: Entity| final(self).issued(x) == old(self).issued(x),
            final(self).slots() == old(self).slots(),
    {
        if !self.is_alive(e) {
            return false;
        }
        let ghost before = *self;
        let i: usize = e.index as usize;
        self.alive.set(i, false);
        let next: u32 = e.generation + 1;
        self.generations.set(i, next);
        if next < u32::MAX {
            self.free.push(e.index);
            proof {
                assert forall|j: int, k: int| 0 <= j < k < self.free.len() implies self.free[j]
                    != self.free[k] by {
                    if k == self.free.len() - 1 {
                        assert(self.free[j] == before.free[j]);
                        assert(!before.alive[before.free[j] as int]);
                    } else {
                        assert(self.free[j] == before.free[j]);
                        assert(self.free[k] == before.free[k]);
                    }
                }
                assert forall|k: int| 0 <= k < self.free.len() implies {
                    &&& (#[trigger] self.free[k]) < self.alive.len()
                    &&& !self.alive[self.free[k] as int]
                    &&& self.generations[self.free[k] as int] < u32::MAX
                } by {
                    if k < self.free.len() - 1 {
                        assert(self.free[k] == before.free[k]);
                    }
                }
            }
        } else {
            proof {
                assert forall|k: int| 0 <= k < self.free.len() implies {
                    &&& (#[trigger] self.free[k]) < self.alive.len()
                    &&& !self.alive[self.free[k] as int]
                    &&& self.generations[self.free[k] as int] < u32::MAX
                } by {
                    assert(self.free[k] == before.free[k]);
                    assert(!before.alive[before.free[k] as int]);
                }
            }
        }
        true
    }
}

/// The first handle that an arena issues is the root.
pub proof fn lemma_first_handle(after: IdManager, e: Entity)
    requires
        after.wf(),
        after.is_alive_spec(e),
        after.slots() <= 1,
        forall|x: Entity| x.index == e.index && x.generation < e.generation ==> !after.issued(x),
    ensures
        e == Entity::spec_root(),
{
    if e.generation > 0 {
        let x = Entity { index: e.index, generation: 0 };
        assert(after.issued(x));
    }
}

/// The entities from place `k - 1` on are the one at `k - 1` and those from `k` on.
pub proof fn lemma_skip_contains(s: Seq<Entity>, k: int)
    requires
        0 <= k <= s.len(),
    ensures
        k > 0 ==> forall|y: Entity|
            #[trigger] s.skip(k - 1).contains(y) == (y == s[k - 1] || s.skip(k).contains(y)),
        s.skip(s.len() as int) == Seq::<Entity>::empty(),
        forall|y: Entity| !s.skip(s.len() as int).contains(y),
        s.skip(0) == s,
{
    let a = s.skip(k - 1);
    let b = s.skip(k);
    assert forall|y: Entity| k > 0 implies #[trigger] a.contains(y) == (y == s[k - 1] || b.contains(
        y,
    )) by {
        if a.contains(y) {
            let i = choose|i: int| 0 <= i < a.len() && a[i] == y;
            if i > 0 {
                assert(b[i - 1] == y);
            }
        }
        if b.contains(y) {
            let i = choose|i: int| 0 <= i < b.len() && b[i] == y;
            assert(a[i + 1] == y);
        }
        if y == s[k - 1] {
            assert(a[0] == y);
        }
    }
    assert(s.skip(s.len() as int) =~= Seq::<Entity>::empty());
    assert(s.skip(0) =~= s);
}

/// A handle that was taken out of use stays out of use when another handle is
/// created: `create` only ever issues a handle that was never issued before.
pub proof fn lemma_stale_handles_stay_dead(before: IdManager, after: IdManager, created: Entity, stale: Entity)
    requires
        before.issued(stale),
        !before.is_alive_spec(stale),
        !before.issued(created),
        forall|x: Entity| x != created ==> after.is_alive_spec(x) == before.is_alive_spec(x),
    ensures
        !after.is_alive_spec(stale),
{
}

} // verus!
