use crate::entity::{lemma_skip_contains, Entity};
use vstd::prelude::*;

verus! {

/// What application data must offer so that lenses can watch it.
///
/// The runtime holds the application's data behind one type, `Self`; a lens shows a
/// part of a model, and that part is again a value of this type.
pub trait Data: Sized {
    /// Whether `shown` is an answer that `project` can give for `self` and `lens`.
    /// An implementation says here what its projection is; one that says nothing
    /// allows every answer.
    open spec fn projects(&self, lens: u64, shown: Option<Self>) -> bool {
        true
    }

    /// The part of `self` that lens `lens` shows, or `None` where the lens does not
    /// read models of this kind. A projection reads, it changes nothing.
    fn project(&self, lens: u64) -> (shown: Option<Self>)
        ensures
            self.projects(lens, shown),
    ;

    /// Whether `same` is an answer that `same` can give for `self` and `other`. An
    /// implementation says here what its equality is; one that says nothing allows
    /// both answers.
    open spec fn compares(&self, other: &Self, same: bool) -> bool {
        true
    }

    /// Whether `self` and `other` are the same value.
    fn same(&self, other: &Self) -> (same: bool)
        ensures
            self.compares(other, same),
    ;
}

/// One model of an entity's store, filed under the tag of its type.
#[derive(Debug)]
pub struct ModelEntry<M> {
    pub tag: u64,
    pub model: M,
}

/// The first model filed under `tag`, if there is one.
pub open spec fn find_tag<M>(models: Seq<ModelEntry<M>>, tag: u64) -> Option<int>
    decreases models.len(),
{
    if models.len() == 0 {
        None
    } else {
        match find_tag(models.drop_last(), tag) {
            Some(k) => Some(k),
            None => if models.last().tag == tag {
                Some(models.len() - 1)
            } else {
                None
            },
        }
    }
}

/// What `find_tag` finds is the first model filed under the tag; it finds none
/// only where no model is filed under it.
pub proof fn lemma_find_tag<M>(models: Seq<ModelEntry<M>>, tag: u64)
    ensures
        find_tag(models, tag) matches Some(k) ==> 0 <= k < models.len() && models[k].tag == tag
            && forall|j: int| 0 <= j < k ==> (#[trigger] models[j]).tag != tag,
        find_tag(models, tag) is None ==> forall|j: int|
            0 <= j < models.len() ==> (#[trigger] models[j]).tag != tag,
    decreases models.len(),
{
    if models.len() > 0 {
        lemma_find_tag(models.drop_last(), tag);
        assert forall|j: int| 0 <= j < models.len() - 1 implies models.drop_last()[j]
            == models[j] by {}
        match find_tag(models.drop_last(), tag) {
            Some(k) => {
                assert(models.drop_last()[k] == models[k]);
                assert forall|j: int| 0 <= j < k implies (#[trigger] models[j]).tag != tag by {
                    assert(models.drop_last()[j] == models[j]);
                }
            },
            None => {
                assert forall|j: int| 0 <= j < models.len() - 1 implies (#[trigger] models[j]).tag
                    != tag by {
                    assert(models.drop_last()[j] == models[j]);
                }
            },
        }
    }
}

/// The place of the first model filed under `tag`.
pub fn position_of_tag<M>(models: &Vec<ModelEntry<M>>, tag: u64) -> (r: Option<usize>)
    ensures
        r is Some == find_tag(models@, tag) is Some,
        r matches Some(k) ==> find_tag(models@, tag) == Some(k as int) && k < models@.len(),
{
    let mut k: usize = 0;
    proof {
        lemma_find_tag(models@, tag);
    }
    while k < models.len()
        invariant
            k <= models.len(),
            forall|j: int| 0 <= j < k ==> (#[trigger] models@[j]).tag != tag,
        decreases models.len() - k,
    {
        if models[k].tag == tag {
            proof {
                lemma_find_tag(models@, tag);
                match find_tag(models@, tag) {
                    Some(f) => {
                        if f < k {
                            assert(models@[f].tag != tag);
                        } else if f > k {
                            assert(models@[k as int].tag != tag);
                        }
                    },
                    None => {
                        assert(models@[k as int].tag != tag);
                    },
                }
            }
            return Some(k);
        }
        k += 1;
    }
    proof {
        lemma_find_tag(models@, tag);
        match find_tag(models@, tag) {
            Some(f) => {
                assert(models@[f].tag != tag);
            },
            None => {},
        }
    }
    None
}

/// What a list holds after one more item is put at its end.
pub proof fn lemma_push_contains<A>(s: Seq<A>, a: A)
    ensures
        forall|x: A| #[trigger] s.push(a).contains(x) == (s.contains(x) || x == a),
{
    let t = s.push(a);
    assert forall|x: A| #[trigger] t.contains(x) == (s.contains(x) || x == a) by {
        if t.contains(x) {
            let i = choose|i: int| 0 <= i < t.len() && t[i] == x;
            if i < s.len() {
                assert(s[i] == x);
            }
        }
        if s.contains(x) {
            let i = choose|i: int| 0 <= i < s.len() && s[i] == x;
            assert(t[i] == x);
        }
        if x == a {
            assert(t[t.len() - 1] == x);
        }
    }
}

/// `s` without `e`, the rest in their order.
pub open spec fn without(s: Seq<Entity>, e: Entity) -> Seq<Entity>
    decreases s.len(),
{
    if s.len() == 0 {
        s
    } else if s.last() == e {
        without(s.drop_last(), e)
    } else {
        without(s.drop_last(), e).push(s.last())
    }
}

/// Taking an entity out of a list leaves the others, and nothing twice that was
/// not there twice.
pub proof fn lemma_without(s: Seq<Entity>, e: Entity)
    ensures
        !without(s, e).contains(e),
        forall|x: Entity| x != e ==> #[trigger] without(s, e).contains(x) == s.contains(x),
        s.no_duplicates() ==> without(s, e).no_duplicates(),
        without(s, e).len() <= s.len(),
    decreases s.len(),
{
    if s.len() > 0 {
        let front = s.drop_last();
        let last = s.last();
        lemma_without(front, e);
        lemma_push_contains(front, last);
        lemma_push_contains(without(front, e), last);
        assert(front.push(last) =~= s);
        if last != e && s.no_duplicates() {
            let kept = without(front, e);
            let all = kept.push(last);
            assert(front.no_duplicates()) by {
                assert forall|i: int, j: int| 0 <= i < front.len() && 0 <= j < front.len() && i
                    != j implies front[i] != front[j] by {
                    assert(s[i] != s[j]);
                }
            }
            if front.contains(last) {
                let i = choose|i: int| 0 <= i < front.len() && front[i] == last;
                assert(s[i] != s[s.len() - 1]);
            }
            assert(!kept.contains(last));
            assert forall|i: int, j: int| 0 <= i < all.len() && 0 <= j < all.len() && i
                != j implies all[i] != all[j] by {
                if i == kept.len() {
                    assert(kept[j] == all[j]);
                    if kept[j] == last {
                        assert(kept.contains(last));
                    }
                } else if j == kept.len() {
                    assert(kept[i] == all[i]);
                    if kept[i] == last {
                        assert(kept.contains(last));
                    }
                } else {
                    assert(kept[i] == all[i] && kept[j] == all[j]);
                }
            }
        } else if s.no_duplicates() {
            assert(front.no_duplicates()) by {
                assert forall|i: int, j: int| 0 <= i < front.len() && 0 <= j < front.len() && i
                    != j implies front[i] != front[j] by {
                    assert(s[i] != s[j]);
                }
            }
        }
    }
}

/// `acc` followed by those of `observers` that are not yet listed, in their order.
pub open spec fn merged(acc: Seq<Entity>, observers: Seq<Entity>) -> Seq<Entity>
    decreases observers.len(),
{
    if observers.len() == 0 {
        acc
    } else {
        let before = merged(acc, observers.drop_last());
        if before.contains(observers.last()) {
            before
        } else {
            before.push(observers.last())
        }
    }
}

/// Merging keeps a list free of repetitions and adds exactly the observers.
pub proof fn lemma_merged(acc: Seq<Entity>, observers: Seq<Entity>)
    requires
        acc.no_duplicates(),
    ensures
        merged(acc, observers).no_duplicates(),
        forall|x: Entity|
            #[trigger] merged(acc, observers).contains(x) == (acc.contains(x) || observers.contains(
                x,
            )),
        acc.len() <= merged(acc, observers).len(),
        forall|i: int| 0 <= i < acc.len() ==> merged(acc, observers)[i] == acc[i],
    decreases observers.len(),
{
    if observers.len() > 0 {
        let front = observers.drop_last();
        let last = observers.last();
        lemma_merged(acc, front);
        let before = merged(acc, front);
        assert forall|x: Entity| observers.contains(x) == (front.contains(x) || x == last) by {
            if observers.contains(x) {
                let i = choose|i: int| 0 <= i < observers.len() && observers[i] == x;
                if i < observers.len() - 1 {
                    assert(front[i] == x);
                }
            }
            if front.contains(x) {
                let i = choose|i: int| 0 <= i < front.len() && front[i] == x;
                assert(observers[i] == x);
            }
            if x == last {
                assert(observers[observers.len() - 1] == x);
            }
        }
        if !before.contains(last) {
            let after = before.push(last);
            assert forall|x: Entity| #[trigger] after.contains(x) == (before.contains(x) || x
                == last) by {
                if after.contains(x) {
                    let i = choose|i: int| 0 <= i < after.len() && after[i] == x;
                    if i < before.len() {
                        assert(before[i] == x);
                    }
                }
                if before.contains(x) {
                    let i = choose|i: int| 0 <= i < before.len() && before[i] == x;
                    assert(after[i] == x);
                }
                if x == last {
                    assert(after[after.len() - 1] == x);
                }
            }
            assert forall|i: int, j: int| 0 <= i < after.len() && 0 <= j < after.len() && i
                != j implies after[i] != after[j] by {
                if i == after.len() - 1 {
                    assert(before[j] == after[j]);
                } else if j == after.len() - 1 {
                    assert(before[i] == after[i]);
                }
            }
        }
    }
}

/// Observers that are listed are not listed again: merging the same observers a
/// second time changes nothing. So an entity that watches a lens is rebuilt once
/// however many models make the lens report a change.
pub proof fn lemma_merged_again(acc: Seq<Entity>, observers: Seq<Entity>)
    requires
        acc.no_duplicates(),
    ensures
        merged(merged(acc, observers), observers) == merged(acc, observers),
{
    lemma_merged(acc, observers);
    lemma_merged_known(merged(acc, observers), observers);
}

/// Merging observers that are all listed already changes nothing.
pub proof fn lemma_merged_known(acc: Seq<Entity>, observers: Seq<Entity>)
    requires
        forall|x: Entity| observers.contains(x) ==> acc.contains(x),
    ensures
        merged(acc, observers) == acc,
    decreases observers.len(),
{
    if observers.len() > 0 {
        let front = observers.drop_last();
        assert forall|x: Entity| front.contains(x) implies acc.contains(x) by {
            let i = choose|i: int| 0 <= i < front.len() && front[i] == x;
            assert(observers[i] == x);
        }
        lemma_merged_known(acc, front);
        assert(observers[observers.len() - 1] == observers.last());
    }
}

/// Adds to `acc` those of `observers` that it does not list yet.
pub fn merge_observers(acc: &mut Vec<Entity>, observers: &Vec<Entity>)
    ensures
        final(acc)@ == merged(old(acc)@, observers@),
{
    let mut i: usize = 0;
    assert(observers@.take(0) =~= Seq::<Entity>::empty());
    while i < observers.len()
        invariant
            i <= observers.len(),
            acc@ == merged(old(acc)@, observers@.take(i as int)),
        decreases observers.len() - i,
    {
        let o: Entity = observers[i];
        proof {
            assert(observers@.take(i + 1).drop_last() =~= observers@.take(i as int));
            assert(observers@.take(i + 1).last() == o);
        }
        let mut found: bool = false;
        let mut j: usize = 0;
        while j < acc.len()
            invariant
                j <= acc.len(),
                found ==> acc@.contains(o),
                !found ==> forall|k: int| 0 <= k < j ==> acc@[k] != o,
            decreases acc.len() - j,
        {
            if acc[j] == o {
                found = true;
            }
            j += 1;
        }
        if !found {
            acc.push(o);
        }
        i += 1;
    }
    assert(observers@.take(i as int) =~= observers@);
}

/// A lens as the runtime keeps it: the value it showed when it was last looked
/// through, and the entities to rebuild when it shows another one.
#[derive(Debug)]
pub struct LensState<M> {
    pub id: u64,
    pub previous: Option<M>,
    pub observers: Vec<Entity>,
}

impl<M> LensState<M> {
    /// No observer is listed twice.
    pub open spec fn wf(&self) -> bool {
        self.observers@.no_duplicates()
    }

    /// Whether no observer is listed twice.
    pub fn check(&self) -> (b: bool)
        ensures
            b == self.wf(),
    {
        let mut i: usize = 0;
        while i < self.observers.len()
            invariant
                i <= self.observers.len(),
                forall|a: int, b: int| 0 <= a < b < i ==> self.observers@[a] != self.observers@[b],
            decreases self.observers.len() - i,
        {
            let mut j: usize = 0;
            while j < i
                invariant
                    j <= i < self.observers.len(),
                    forall|a: int| 0 <= a < j ==> self.observers@[a] != self.observers@[i as int],
                decreases i - j,
            {
                if self.observers[j] == self.observers[i] {
                    return false;
                }
                j += 1;
            }
            i += 1;
        }
        true
    }

    /// A lens that has shown nothing yet and has nobody watching.
    pub fn new(id: u64) -> (l: Self)
        ensures
            l.wf(),
            l.id == id,
            l.previous is None,
            l.observers@ == Seq::<Entity>::empty(),
    {
        LensState { id, previous: None, observers: Vec::new() }
    }

    /// Registers `entity` to be rebuilt when the lens shows another value. An
    /// entity is registered at most once.
    pub fn add_observer(&mut self, entity: Entity)
        requires
            old(self).wf(),
        ensures
            final(self).wf(),
            final(self).id == old(self).id,
            final(self).previous == old(self).previous,
            final(self).observers@ == merged(old(self).observers@, seq![entity]),
            final(self).observers@.contains(entity),
    {
        let mut one: Vec<Entity> = Vec::new();
        one.push(entity);
        proof {
            assert(one@ =~= seq![entity]);
            lemma_merged(self.observers@, one@);
            assert(one@[0] == entity);
        }
        merge_observers(&mut self.observers, &one);
    }

    /// Takes `entity` off the list of observers; the others stay in their order.
    pub fn remove_observer(&mut self, entity: Entity)
        requires
            old(self).wf(),
        ensures
            final(self).wf(),
            final(self).id == old(self).id,
            final(self).previous == old(self).previous,
            final(self).observers@ == without(old(self).observers@, entity),
            !final(self).observers@.contains(entity),
            forall|x: Entity|
                x != entity ==> final(self).observers@.contains(x) == old(self).observers@.contains(
                    x,
                ),
    {
        let ghost before = self.observers@;
        let mut kept: Vec<Entity> = Vec::new();
        let mut i: usize = 0;
        assert(before.take(0) =~= Seq::<Entity>::empty());
        while i < self.observers.len()
            invariant
                i <= self.observers.len(),
                self.observers@ == before,
                self.id == old(self).id,
                self.previous == old(self).previous,
                kept@ == without(before.take(i as int), entity),
            decreases self.observers.len() - i,
        {
            let o: Entity = self.observers[i];
            proof {
                assert(before.take(i + 1).drop_last() =~= before.take(i as int));
                assert(before.take(i + 1).last() == o);
            }
            if o != entity {
                kept.push(o);
            }
            i += 1;
        }
        proof {
            assert(before.take(i as int) =~= before);
            lemma_without(before, entity);
        }
        self.observers = kept;
    }

    /// Takes every entity of `entities` off the list of observers.
    pub fn remove_observers(&mut self, entities: &Vec<Entity>)
        requires
            old(self).wf(),
        ensures
            final(self).wf(),
            final(self).id == old(self).id,
            final(self).previous == old(self).previous,
            forall|x: Entity|
                #[trigger] final(self).observers@.contains(x) == (old(self).observers@.contains(x)
                    && !entities@.contains(x)),
    {
        let mut k: usize = entities.len();
        proof {
            lemma_skip_contains(entities@, entities@.len() as int);
        }
        while k > 0
            invariant
                k <= entities.len(),
                self.wf(),
                self.id == old(self).id,
                self.previous == old(self).previous,
                forall|x: Entity|
                    self.observers@.contains(x) == (old(self).observers@.contains(x)
                        && !entities@.skip(k as int).contains(x)),
            decreases k,
        {
            proof {
                lemma_skip_contains(entities@, k as int);
            }
            k -= 1;
            self.remove_observer(entities[k]);
        }
        proof {
            lemma_skip_contains(entities@, 0);
        }
    }

    /// Takes note of what the lens shows now. `same` says whether `fresh` is the
    /// value that the lens showed before; where it is, nothing changes, and where it
    /// is not, `fresh` is kept for the next comparison. Returns whether the value
    /// changed.
    pub fn observe(&mut self, fresh: M, same: bool) -> (changed: bool)
        ensures
            changed == !same,
            final(self).id == old(self).id,
            final(self).observers == old(self).observers,
            final(self).previous == if same {
                old(self).previous
            } else {
                Some(fresh)
            },
    {
        if same {
            false
        } else {
            self.previous = Some(fresh);
            true
        }
    }
}

impl<M: Data> LensState<M> {
    /// The lens `before` once it has taken note of `fresh`, where `same` says
    /// whether `fresh` is the value that it showed before.
    pub open spec fn noted(before: LensState<M>, fresh: M, same: bool) -> LensState<M> {
        LensState {
            previous: if same {
                before.previous
            } else {
                Some(fresh)
            },
            ..before
        }
    }

    /// A look through the lens `before` at `model` that was answered with `shown`,
    /// and, where a value was shown and the lens had shown one before, whose
    /// comparison of the two was answered with `same`, leaves the lens as `after`
    /// and reports `changed`: a model that the lens does not read leaves the lens
    /// alone and reports no change; a value that is the same as the one shown
    /// before does so too; any other value is kept and reported as a change, and so
    /// is the first value that the lens shows.
    pub open spec fn outcome(before: LensState<M>, model: M, shown: Option<M>, same: bool, after: LensState<M>, changed: bool) -> bool {
        &&& model.projects(before.id, shown)
        &&& match shown {
            None => after == before && !changed,
            Some(fresh) => {
                &&& match before.previous {
                    Some(last) => fresh.compares(&last, same),
                    None => !same,
                }
                &&& changed == !same
                &&& after == Self::noted(before, fresh, same)
            },
        }
    }

    /// A look through the lens `before` at `model` can leave the lens as `after`
    /// and report `changed`.
    pub open spec fn looked(before: LensState<M>, model: M, after: LensState<M>, changed: bool) -> bool {
        exists|shown: Option<M>, same: bool| #[trigger]
            Self::outcome(before, model, shown, same, after, changed)
    }

    /// A lens that is shown no value, or the value that it remembers, reports no
    /// change and stays as it is; one that is shown another value, or its first,
    /// reports a change and remembers the value. Its id and its observers stay.
    pub proof fn lemma_look(before: LensState<M>, model: M, shown: Option<M>, same: bool, after: LensState<M>, changed: bool)
        requires
            Self::outcome(before, model, shown, same, after, changed),
        ensures
            shown is None ==> !changed && after == before,
            same ==> !changed && after == before,
            shown matches Some(fresh) ==> (!same ==> changed && after.previous == Some(fresh)),
            shown is Some && before.previous is None ==> changed,
            after.id == before.id,
            after.observers == before.observers,
            changed ==> shown is Some && after.previous == shown,
    {
    }

    /// Looks through the lens at `model`, as [`LensState::update`] does, and where
    /// the value changed adds the observers of the lens to `rebuild`, each that is
    /// not yet listed. A lens that shows the value it showed before adds nobody.
    pub fn update_into(&mut self, model: &M, rebuild: &mut Vec<Entity>) -> (changed: bool)
        ensures
            Self::looked(*old(self), *model, *final(self), changed),
            final(self).id == old(self).id,
            final(self).observers == old(self).observers,
            !changed ==> final(self).previous == old(self).previous,
            changed ==> final(self).previous is Some,
            final(rebuild)@ == if changed {
                merged(old(rebuild)@, old(self).observers@)
            } else {
                old(rebuild)@
            },
    {
        let changed: bool = self.update(model);
        if changed {
            merge_observers(rebuild, &self.observers);
        }
        changed
    }


    /// Looks through the lens at `model`. A model that the lens does not read
    /// leaves the lens as it is. Otherwise the value shown is compared with the one
    /// shown before, and kept if it is another one (a lens that has shown nothing
    /// yet takes any value as a change). Returns whether the value changed.
    pub fn update(&mut self, model: &M) -> (changed: bool)
        ensures
            Self::looked(*old(self), *model, *final(self), changed),
            final(self).id == old(self).id,
            final(self).observers == old(self).observers,
            !changed ==> final(self).previous == old(self).previous,
            changed ==> final(self).previous is Some,
    {
        match model.project(self.id) {
            None => {
                assert(Self::outcome(*old(self), *model, None, false, *self, false));
                false
            },
            Some(fresh) => {
                let same: bool = match &self.previous {
                    Some(last) => fresh.same(last),
                    None => false,
                };
                let changed: bool = self.observe(fresh, same);
                assert(Self::outcome(*old(self), *model, Some(fresh), same, *self, changed));
                changed
            },
        }
    }
}

} // verus!
