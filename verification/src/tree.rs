use crate::entity::Entity;
use vstd::prelude::*;

verus! {

/// One line of the tree's outline: an entity and how deep below the root it sits.
#[derive(Clone, Copy, Debug, PartialEq, Eq, Structural)]
pub struct Node {
    pub entity: Entity,
    pub depth: usize,
}

/// Why a change to the tree was refused.
#[derive(Clone, Copy, Debug, PartialEq, Eq, Structural)]
pub enum TreeError {
    /// The entity to add is the null handle.
    NullEntity,
    /// The entity to add is already in the tree.
    AlreadyExists,
    /// The parent to add under is not in the tree.
    NoParent,
    /// The root cannot be removed.
    IsRoot,
    /// The entity to remove is not in the tree.
    NotFound,
}

// ---------------------------------------------------------------------------
// The model: a tree written as its pre-order outline.
//
// Every node is listed before its descendants, and a node's subtree is the run of
// deeper lines that follows it. Parent, ancestors and subtree are read off the
// depths.
// ---------------------------------------------------------------------------
/// The outline is that of one tree below the root entity, each entity listed once.
pub open spec fn outline_wf(s: Seq<Node>) -> bool {
    &&& s.len() >= 1
    &&& s[0] == Node { entity: Entity::spec_root(), depth: 0 }
    &&& forall|i: int| 1 <= i < s.len() ==> 1 <= (#[trigger] s[i]).depth
    &&& forall|i: int, j: int|
        0 <= i < j < s.len() ==> (#[trigger] s[j]).depth <= (#[trigger] s[i]).depth + (j - i)
    &&& forall|i: int, j: int|
        0 <= i < j < s.len() ==> (#[trigger] s[i]).entity != (#[trigger] s[j]).entity
}

/// The last line before line `i` that is shallower than `d`, or -1.
pub open spec fn last_shallower(s: Seq<Node>, i: int, d: int) -> int
    decreases i,
{
    if i <= 0 {
        -1
    } else if i - 1 < s.len() && s[i - 1].depth < d {
        i - 1
    } else {
        last_shallower(s, i - 1, d)
    }
}

/// The first line from `k` on that is not deeper than `d`, or the outline's length.
pub open spec fn first_not_deeper(s: Seq<Node>, k: int, d: int) -> int
    decreases s.len() - k,
{
    if k >= s.len() {
        s.len() as int
    } else if k >= 0 && s[k].depth <= d {
        k
    } else {
        first_not_deeper(s, k + 1, d)
    }
}

/// The line of the parent of line `i`, or -1 for the root.
pub open spec fn parent_index(s: Seq<Node>, i: int) -> int {
    last_shallower(s, i, s[i].depth as int)
}

/// One past the last line of the subtree of line `i`.
pub open spec fn subtree_end(s: Seq<Node>, i: int) -> int {
    first_not_deeper(s, i + 1, s[i].depth as int)
}

/// The line of `e`, or -1 where `e` is not listed.
pub open spec fn line_of(s: Seq<Node>, e: Entity) -> int
    decreases s.len(),
{
    if s.len() == 0 {
        -1
    } else if s.last().entity == e {
        s.len() - 1
    } else {
        line_of(s.drop_last(), e)
    }
}

/// The entities from line `i` up to the root, `i`'s own entity first.
pub open spec fn ancestors_from(s: Seq<Node>, i: int) -> Seq<Entity>
    decreases i + 1,
{
    if i < 0 || i >= s.len() {
        Seq::empty()
    } else {
        proof {
            lemma_last_shallower(s, i, s[i].depth as int);
        }
        seq![s[i].entity] + ancestors_from(s, parent_index(s, i))
    }
}

/// The entities of lines `[from, to)`, in order.
pub open spec fn entities_between(s: Seq<Node>, from: int, to: int) -> Seq<Entity> {
    Seq::new((to - from) as nat, |k: int| s[from + k].entity)
}

/// What `last_shallower` finds is shallower than `d`, and nothing after it up to
/// line `i` is.
pub proof fn lemma_last_shallower(s: Seq<Node>, i: int, d: int)
    ensures
        -1 <= last_shallower(s, i, d),
        last_shallower(s, i, d) < i || i <= 0,
        i <= 0 ==> last_shallower(s, i, d) == -1,
        0 <= last_shallower(s, i, d) && i <= s.len() ==> s[last_shallower(s, i, d)].depth < d,
        forall|k: int|
            last_shallower(s, i, d) < k < i && 0 <= k < s.len() ==> (#[trigger] s[k]).depth >= d,
    decreases i,
{
    if i <= 0 {
    } else if i - 1 < s.len() && s[i - 1].depth < d {
    } else {
        lemma_last_shallower(s, i - 1, d);
    }
}

/// A line that is shallower than `d` with nothing shallower after it is the one
/// that `last_shallower` finds.
pub proof fn lemma_last_shallower_is(s: Seq<Node>, i: int, d: int, r: int)
    requires
        -1 <= r < i <= s.len(),
        r >= 0 ==> s[r].depth < d,
        forall|k: int| r < k < i ==> (#[trigger] s[k]).depth >= d,
    ensures
        last_shallower(s, i, d) == r,
    decreases i,
{
    if i <= 0 {
    } else if s[i - 1].depth < d {
        if r != i - 1 {
            assert(s[i - 1].depth >= d);
        }
    } else {
        lemma_last_shallower_is(s, i - 1, d, r);
    }
}

/// What `first_not_deeper` finds is not deeper than `d`, and everything from `k` up
/// to it is.
pub proof fn lemma_first_not_deeper(s: Seq<Node>, k: int, d: int)
    requires
        0 <= k,
    ensures
        k <= first_not_deeper(s, k, d) || k > s.len(),
        first_not_deeper(s, k, d) <= s.len(),
        first_not_deeper(s, k, d) < s.len() ==> s[first_not_deeper(s, k, d)].depth <= d,
        forall|j: int| k <= j < first_not_deeper(s, k, d) ==> (#[trigger] s[j]).depth > d,
    decreases s.len() - k,
{
    if k >= s.len() {
    } else if s[k].depth <= d {
    } else {
        lemma_first_not_deeper(s, k + 1, d);
    }
}

/// A line that is not deeper than `d` with only deeper lines before it is the one
/// that `first_not_deeper` finds.
pub proof fn lemma_first_not_deeper_is(s: Seq<Node>, k: int, d: int, r: int)
    requires
        0 <= k <= r <= s.len(),
        r < s.len() ==> s[r].depth <= d,
        forall|j: int| k <= j < r ==> (#[trigger] s[j]).depth > d,
    ensures
        first_not_deeper(s, k, d) == r,
    decreases s.len() - k,
{
    if k >= s.len() {
    } else if s[k].depth <= d {
        if r != k {
            assert(s[k].depth > d);
        }
    } else {
        lemma_first_not_deeper_is(s, k + 1, d, r);
    }
}

/// The line of an entity holds that entity; an entity without a line is on no
/// line.
pub proof fn lemma_line_of(s: Seq<Node>, e: Entity)
    ensures
        -1 <= line_of(s, e) < s.len(),
        line_of(s, e) >= 0 ==> s[line_of(s, e)].entity == e,
        line_of(s, e) < 0 ==> forall|i: int| 0 <= i < s.len() ==> (#[trigger] s[i]).entity != e,
    decreases s.len(),
{
    if s.len() == 0 {
    } else if s.last().entity == e {
    } else {
        lemma_line_of(s.drop_last(), e);
        assert forall|i: int| 0 <= i < s.len() && line_of(s, e) < 0 implies (#[trigger] s[i]).entity
            != e by {
            if i < s.len() - 1 {
                assert(s.drop_last()[i] == s[i]);
            }
        }
    }
}

/// In an outline that lists no entity twice, the line of an entity is the line
/// where it stands.
pub proof fn lemma_line_of_is(s: Seq<Node>, i: int)
    requires
        0 <= i < s.len(),
        forall|a: int, b: int|
            0 <= a < b < s.len() ==> (#[trigger] s[a]).entity != (#[trigger] s[b]).entity,
    ensures
        line_of(s, s[i].entity) == i,
{
    lemma_line_of(s, s[i].entity);
    let r = line_of(s, s[i].entity);
    if r != i {
        if r < 0 {
            assert(s[i].entity != s[i].entity);
        } else if r < i {
            assert(s[r].entity != s[i].entity);
        } else {
            assert(s[i].entity != s[r].entity);
        }
    }
}

/// No line is deeper than its number.
pub proof fn lemma_depth_le_index(s: Seq<Node>, i: int)
    requires
        outline_wf(s),
        0 <= i < s.len(),
    ensures
        s[i].depth <= i,
{
    if i > 0 {
        assert(s[i].depth <= s[0].depth + (i - 0));
    }
}

/// Every line but the first has exactly one parent line: it comes earlier and is
/// one level up.
pub proof fn lemma_parent(s: Seq<Node>, i: int)
    requires
        outline_wf(s),
        1 <= i < s.len(),
    ensures
        0 <= parent_index(s, i) < i,
        s[parent_index(s, i)].depth + 1 == s[i].depth,
        forall|k: int| parent_index(s, i) < k < i ==> (#[trigger] s[k]).depth >= s[i].depth,
{
    let d = s[i].depth as int;
    lemma_last_shallower(s, i, d);
    let r = last_shallower(s, i, d);
    if r < 0 {
        assert(s[0].depth >= d);
    }
    assert(s[r + 1].depth <= s[r].depth + (r + 1 - r));
    if r + 1 < i {
        assert(s[r + 1].depth >= d);
    }
}

/// The subtree of a line runs from the line itself to its end, and everything
/// strictly inside is deeper than the line.
pub proof fn lemma_subtree_end(s: Seq<Node>, i: int)
    requires
        0 <= i < s.len(),
    ensures
        i < subtree_end(s, i) <= s.len(),
        subtree_end(s, i) < s.len() ==> s[subtree_end(s, i)].depth <= s[i].depth,
        forall|j: int| i < j < subtree_end(s, i) ==> (#[trigger] s[j]).depth > s[i].depth,
{
    lemma_first_not_deeper(s, i + 1, s[i].depth as int);
}

/// The root's subtree is the whole outline.
pub proof fn lemma_root_subtree(s: Seq<Node>)
    requires
        outline_wf(s),
    ensures
        subtree_end(s, 0) == s.len(),
{
    lemma_first_not_deeper_is(s, 1, 0, s.len() as int);
}

/// The ancestors of a line start with the line's own entity and end with the root.
pub proof fn lemma_ancestors_from(s: Seq<Node>, i: int)
    requires
        outline_wf(s),
        0 <= i < s.len(),
    ensures
        ancestors_from(s, i).len() == s[i].depth + 1,
        ancestors_from(s, i)[0] == s[i].entity,
        ancestors_from(s, i).last() == Entity::spec_root(),
        i > 0 ==> ancestors_from(s, i) == seq![s[i].entity] + ancestors_from(s, parent_index(s, i)),
        i == 0 ==> ancestors_from(s, i) == seq![Entity::spec_root()],
    decreases i,
{
    if i == 0 {
        assert(parent_index(s, 0) == -1);
        assert(ancestors_from(s, -1) == Seq::<Entity>::empty());
        assert(ancestors_from(s, 0) =~= seq![Entity::spec_root()]);
    } else {
        lemma_parent(s, i);
        lemma_ancestors_from(s, parent_index(s, i));
    }
}

/// Line `j` lies in the subtree of line `i`, `i` itself included.
pub open spec fn in_subtree(s: Seq<Node>, i: int, j: int) -> bool {
    i <= j < subtree_end(s, i)
}

/// Line `i` is `j` or one of the lines above it on the way to the root.
pub open spec fn is_ancestor_line(s: Seq<Node>, i: int, j: int) -> bool
    decreases j + 1,
{
    if j < 0 || j >= s.len() {
        false
    } else if i == j {
        true
    } else {
        proof {
            lemma_last_shallower(s, j, s[j].depth as int);
        }
        is_ancestor_line(s, i, parent_index(s, j))
    }
}

/// The subtree of a line holds exactly the lines that have it among their
/// ancestors.
pub proof fn lemma_subtree_is_descendants(s: Seq<Node>, i: int, j: int)
    requires
        outline_wf(s),
        0 <= i < s.len(),
        0 <= j < s.len(),
    ensures
        in_subtree(s, i, j) == is_ancestor_line(s, i, j),
    decreases j,
{
    lemma_subtree_end(s, i);
    if i == j {
    } else if j == 0 {
        assert(parent_index(s, 0) == -1);
        assert(!is_ancestor_line(s, i, -1));
    } else {
        lemma_parent(s, j);
        let p = parent_index(s, j);
        lemma_subtree_is_descendants(s, i, p);
        if in_subtree(s, i, j) {
            assert(s[j].depth > s[i].depth);
            if p < i {
                assert(s[i].depth >= s[j].depth);
            }
            assert(in_subtree(s, i, p));
        } else if in_subtree(s, i, p) {
            // p is inside, j is not: the subtree ended between them
            let e = subtree_end(s, i);
            assert(p < e <= j);
            assert(s[e].depth <= s[i].depth);
            if e < j {
                assert(s[e].depth >= s[j].depth);
            }
            if p > i {
                assert(s[p].depth > s[i].depth);
            }
            assert(false);
        }
    }
}

/// The outline with `e` added as the last child of line `p`: a new line right
/// after the subtree of `p`, one level deeper than `p`.
pub open spec fn outline_add(s: Seq<Node>, p: int, e: Entity) -> Seq<Node> {
    s.insert(subtree_end(s, p), Node { entity: e, depth: (s[p].depth + 1) as usize })
}

/// The outline with the subtree of line `i` taken out.
pub open spec fn outline_remove(s: Seq<Node>, i: int) -> Seq<Node> {
    s.subrange(0, i) + s.subrange(subtree_end(s, i), s.len() as int)
}

/// Where a line of the old outline stands after a line is put in at `k`.
pub open spec fn shifted_up(j: int, k: int) -> int {
    if j < k {
        j
    } else {
        j + 1
    }
}

/// Where a line of the old outline stands after the lines `[i, e)` are taken out.
pub open spec fn shifted_down(j: int, i: int, e: int) -> int {
    if j < i {
        j
    } else {
        j - (e - i)
    }
}

/// `t` is `s` with the line `n` put in at `k`.
pub open spec fn is_insertion(s: Seq<Node>, t: Seq<Node>, k: int, n: Node) -> bool {
    &&& 0 <= k <= s.len()
    &&& t.len() == s.len() + 1
    &&& t[k] == n
    &&& forall|j: int| 0 <= j < k ==> #[trigger] t[j] == s[j]
    &&& forall|j: int| k < j < t.len() ==> #[trigger] t[j] == s[j - 1]
}

/// `t` is `s` with the lines `[i, e)` taken out.
pub open spec fn is_removal(s: Seq<Node>, t: Seq<Node>, i: int, e: int) -> bool {
    &&& 0 <= i <= e <= s.len()
    &&& t.len() == s.len() - (e - i)
    &&& forall|j: int| 0 <= j < i ==> #[trigger] t[j] == s[j]
    &&& forall|j: int| i <= j < t.len() ==> #[trigger] t[j] == s[j + (e - i)]
}

proof fn lemma_insertion_wf(s: Seq<Node>, t: Seq<Node>, p: int, k: int, n: Node)
    requires
        outline_wf(s),
        0 <= p < s.len(),
        k == subtree_end(s, p),
        n.depth == s[p].depth + 1,
        is_insertion(s, t, k, n),
        forall|i: int| 0 <= i < s.len() ==> (#[trigger] s[i]).entity != n.entity,
    ensures
        outline_wf(t),
{
    let d = s[p].depth as int;
    lemma_subtree_end(s, p);
    assert forall|i: int| 1 <= i < t.len() implies 1 <= (#[trigger] t[i]).depth by {
        if i != k {
            let i0 = if i < k { i } else { i - 1 };
            assert(t[i] == s[i0]);
        }
    }
    assert forall|a: int, b: int| 0 <= a < b < t.len() implies (#[trigger] t[b]).depth <= (
    #[trigger] t[a]).depth + (b - a) by {
        if a != k && b != k {
            let a0 = if a < k { a } else { a - 1 };
            let b0 = if b < k { b } else { b - 1 };
            assert(t[a] == s[a0] && t[b] == s[b0]);
            assert(s[b0].depth <= s[a0].depth + (b0 - a0));
        } else if b == k {
            assert(t[a] == s[a]);
            if a < p {
                assert(s[p].depth <= s[a].depth + (p - a));
            } else if a > p {
                assert(s[a].depth > d);
            }
        } else {
            assert(t[b] == s[b - 1]);
            assert(s[k].depth <= d);
            if b - 1 > k {
                assert(s[b - 1].depth <= s[k].depth + (b - 1 - k));
            }
        }
    }
    assert forall|a: int, b: int| 0 <= a < b < t.len() implies (#[trigger] t[a]).entity != (
    #[trigger] t[b]).entity by {
        if a != k && b != k {
            let a0 = if a < k { a } else { a - 1 };
            let b0 = if b < k { b } else { b - 1 };
            assert(t[a] == s[a0] && t[b] == s[b0]);
        } else if a == k {
            assert(t[b] == s[b - 1]);
        } else {
            assert(t[a] == s[a]);
        }
    }
    assert(t[0] == s[0]);
}

proof fn lemma_insertion_parent_new(s: Seq<Node>, t: Seq<Node>, p: int, k: int, n: Node)
    requires
        0 <= p < s.len(),
        k == subtree_end(s, p),
        n.depth == s[p].depth + 1,
        is_insertion(s, t, k, n),
    ensures
        parent_index(t, k) == p,
{
    let d = s[p].depth as int;
    lemma_subtree_end(s, p);
    assert forall|m: int| p < m < k implies (#[trigger] t[m]).depth >= d + 1 by {
        assert(t[m] == s[m]);
        assert(s[m].depth > d);
    }
    assert(t[p] == s[p]);
    lemma_last_shallower_is(t, k, d + 1, p);
}

proof fn lemma_insertion_parent_old(s: Seq<Node>, t: Seq<Node>, p: int, k: int, n: Node, j: int)
    requires
        outline_wf(s),
        0 <= p < s.len(),
        k == subtree_end(s, p),
        n.depth == s[p].depth + 1,
        is_insertion(s, t, k, n),
        1 <= j < s.len(),
    ensures
        parent_index(t, shifted_up(j, k)) == shifted_up(parent_index(s, j), k),
{
    let d = s[p].depth as int;
    lemma_subtree_end(s, p);
    lemma_parent(s, j);
    let r = parent_index(s, j);
    let dj = s[j].depth as int;
    let j1 = shifted_up(j, k);
    let r1 = shifted_up(r, k);
    assert(t[j1] == s[j]);
    assert(t[r1] == s[r]);
    assert forall|m: int| r1 < m < j1 implies (#[trigger] t[m]).depth >= dj by {
        if m < k {
            assert(t[m] == s[m]);
            assert(s[m].depth >= dj);
        } else if m == k {
            assert(r < k <= j);
            if k < j {
                assert(s[k].depth >= dj);
            }
            assert(s[k].depth <= d);
        } else {
            assert(t[m] == s[m - 1]);
            assert(s[m - 1].depth >= dj);
        }
    }
    lemma_last_shallower_is(t, j1, dj, r1);
}

/// Adding a last child keeps the outline a tree, makes `p` the parent of the new
/// line, and leaves every other line with the parent it had.
pub proof fn lemma_add(s: Seq<Node>, p: int, e: Entity)
    requires
        outline_wf(s),
        0 <= p < s.len(),
        s.len() <= usize::MAX,
        forall|i: int| 0 <= i < s.len() ==> (#[trigger] s[i]).entity != e,
    ensures
        outline_wf(outline_add(s, p, e)),
        is_insertion(
            s,
            outline_add(s, p, e),
            subtree_end(s, p),
            Node { entity: e, depth: (s[p].depth + 1) as usize },
        ),
        parent_index(outline_add(s, p, e), subtree_end(s, p)) == p,
        forall|j: int|
            1 <= j < s.len() ==> #[trigger] parent_index(
                outline_add(s, p, e),
                shifted_up(j, subtree_end(s, p)),
            ) == shifted_up(parent_index(s, j), subtree_end(s, p)),
{
    let k = subtree_end(s, p);
    let t = outline_add(s, p, e);
    let n = Node { entity: e, depth: (s[p].depth + 1) as usize };
    lemma_subtree_end(s, p);
    lemma_depth_le_index(s, p);
    assert(is_insertion(s, t, k, n));
    lemma_insertion_wf(s, t, p, k, n);
    lemma_insertion_parent_new(s, t, p, k, n);
    assert forall|j: int| 1 <= j < s.len() implies #[trigger] parent_index(t, shifted_up(j, k))
        == shifted_up(parent_index(s, j), k) by {
        lemma_insertion_parent_old(s, t, p, k, n, j);
    }
}

proof fn lemma_removal_wf(s: Seq<Node>, t: Seq<Node>, i: int, e: int)
    requires
        outline_wf(s),
        1 <= i < s.len(),
        e == subtree_end(s, i),
        is_removal(s, t, i, e),
    ensures
        outline_wf(t),
{
    let c = e - i;
    lemma_subtree_end(s, i);
    assert forall|m: int| 1 <= m < t.len() implies 1 <= (#[trigger] t[m]).depth by {
        let m0 = if m < i { m } else { m + c };
        assert(t[m] == s[m0]);
    }
    assert forall|a: int, b: int| 0 <= a < b < t.len() implies (#[trigger] t[b]).depth <= (
    #[trigger] t[a]).depth + (b - a) by {
        let a0 = if a < i { a } else { a + c };
        let b0 = if b < i { b } else { b + c };
        assert(t[a] == s[a0] && t[b] == s[b0]);
        if a < i && b >= i {
            assert(s[e].depth <= s[i].depth);
            assert(s[i].depth <= s[a].depth + (i - a));
            if b0 > e {
                assert(s[b0].depth <= s[e].depth + (b0 - e));
            }
        } else {
            assert(s[b0].depth <= s[a0].depth + (b0 - a0));
        }
    }
    assert forall|a: int, b: int| 0 <= a < b < t.len() implies (#[trigger] t[a]).entity != (
    #[trigger] t[b]).entity by {
        let a0 = if a < i { a } else { a + c };
        let b0 = if b < i { b } else { b + c };
        assert(t[a] == s[a0] && t[b] == s[b0]);
    }
    assert(t[0] == s[0]);
}

proof fn lemma_removal_parent(s: Seq<Node>, t: Seq<Node>, i: int, e: int, j: int)
    requires
        outline_wf(s),
        1 <= i < s.len(),
        e == subtree_end(s, i),
        is_removal(s, t, i, e),
        1 <= j < s.len(),
        !in_subtree(s, i, j),
    ensures
        !in_subtree(s, i, parent_index(s, j)),
        parent_index(t, shifted_down(j, i, e)) == shifted_down(parent_index(s, j), i, e),
{
    let c = e - i;
    lemma_subtree_end(s, i);
    lemma_parent(s, j);
    let r = parent_index(s, j);
    let dj = s[j].depth as int;
    if j >= e && i <= r && r < e {
        // the parent cannot lie inside the removed run
        assert(s[e].depth <= s[i].depth);
        if r > i {
            assert(s[r].depth > s[i].depth);
        }
        if e < j {
            assert(s[e].depth >= dj);
        }
        assert(false);
    }
    let j1 = shifted_down(j, i, e);
    let r1 = shifted_down(r, i, e);
    assert(t[j1] == s[j]);
    assert(t[r1] == s[r]);
    assert forall|m: int| r1 < m < j1 implies (#[trigger] t[m]).depth >= dj by {
        if m < i {
            assert(t[m] == s[m]);
            assert(s[m].depth >= dj);
        } else {
            assert(t[m] == s[m + c]);
            assert(s[m + c].depth >= dj);
        }
    }
    lemma_last_shallower_is(t, j1, dj, r1);
}

/// Taking a subtree out keeps the outline a tree and leaves every remaining line
/// with the parent it had.
pub proof fn lemma_remove(s: Seq<Node>, i: int)
    requires
        outline_wf(s),
        1 <= i < s.len(),
    ensures
        outline_wf(outline_remove(s, i)),
        is_removal(s, outline_remove(s, i), i, subtree_end(s, i)),
        forall|j: int|
            1 <= j < s.len() && !in_subtree(s, i, j) ==> !in_subtree(
                s,
                i,
                #[trigger] parent_index(s, j),
            ),
        forall|j: int|
            1 <= j < s.len() && !in_subtree(s, i, j) ==> #[trigger] parent_index(
                outline_remove(s, i),
                shifted_down(j, i, subtree_end(s, i)),
            ) == shifted_down(parent_index(s, j), i, subtree_end(s, i)),
{
    let e = subtree_end(s, i);
    let t = outline_remove(s, i);
    lemma_subtree_end(s, i);
    assert(is_removal(s, t, i, e));
    lemma_removal_wf(s, t, i, e);
    assert forall|j: int| 1 <= j < s.len() && !in_subtree(s, i, j) implies !in_subtree(
        s,
        i,
        #[trigger] parent_index(s, j),
    ) by {
        lemma_removal_parent(s, t, i, e, j);
    }
    assert forall|j: int| 1 <= j < s.len() && !in_subtree(s, i, j) implies #[trigger] parent_index(
        t,
        shifted_down(j, i, e),
    ) == shifted_down(parent_index(s, j), i, e) by {
        lemma_removal_parent(s, t, i, e, j);
    }
}

/// Where each entity stands after `e` was added as the last child of line `p`.
pub proof fn lemma_add_lines(s: Seq<Node>, p: int, e: Entity, x: Entity)
    requires
        outline_wf(s),
        0 <= p < s.len(),
        s.len() <= usize::MAX,
        line_of(s, e) < 0,
    ensures
        line_of(outline_add(s, p, e), x) == if x == e {
            subtree_end(s, p)
        } else if line_of(s, x) >= 0 {
            shifted_up(line_of(s, x), subtree_end(s, p))
        } else {
            -1
        },
{
    let k = subtree_end(s, p);
    let t = outline_add(s, p, e);
    lemma_line_of(s, e);
    lemma_add(s, p, e);
    lemma_line_of(s, x);
    lemma_line_of(t, x);
    let j = line_of(s, x);
    if x == e {
        lemma_line_of_is(t, k);
    } else if j >= 0 {
        assert(t[shifted_up(j, k)] == s[j]);
        lemma_line_of_is(t, shifted_up(j, k));
    } else {
        let m = line_of(t, x);
        if m >= 0 {
            if m < k {
                assert(t[m] == s[m]);
            } else if m > k {
                assert(t[m] == s[m - 1]);
            }
            assert(false);
        }
    }
}

/// Where each entity stands after the subtree of line `i` was taken out.
pub proof fn lemma_remove_lines(s: Seq<Node>, i: int, x: Entity)
    requires
        outline_wf(s),
        1 <= i < s.len(),
    ensures
        line_of(outline_remove(s, i), x) == if line_of(s, x) >= 0 && !in_subtree(
            s,
            i,
            line_of(s, x),
        ) {
            shifted_down(line_of(s, x), i, subtree_end(s, i))
        } else {
            -1
        },
{
    let e = subtree_end(s, i);
    let t = outline_remove(s, i);
    lemma_remove(s, i);
    lemma_subtree_end(s, i);
    lemma_line_of(s, x);
    lemma_line_of(t, x);
    let j = line_of(s, x);
    if j >= 0 && !in_subtree(s, i, j) {
        assert(t[shifted_down(j, i, e)] == s[j]);
        lemma_line_of_is(t, shifted_down(j, i, e));
    } else {
        let m = line_of(t, x);
        if m >= 0 {
            let m0 = if m < i { m } else { m + (e - i) };
            assert(t[m] == s[m0]);
            lemma_line_of_is(s, m0);
            assert(false);
        }
    }
}

/// The entities of a run of lines are exactly those whose line is in the run.
pub proof fn lemma_entities_between(s: Seq<Node>, from: int, to: int, x: Entity)
    requires
        0 <= from <= to <= s.len(),
        forall|a: int, b: int|
            0 <= a < b < s.len() ==> (#[trigger] s[a]).entity != (#[trigger] s[b]).entity,
    ensures
        entities_between(s, from, to).contains(x) == (from <= line_of(s, x) < to),
{
    let run = entities_between(s, from, to);
    lemma_line_of(s, x);
    if run.contains(x) {
        let k = choose|k: int| 0 <= k < run.len() && run[k] == x;
        lemma_line_of_is(s, from + k);
    }
    if from <= line_of(s, x) < to {
        assert(run[line_of(s, x) - from] == x);
    }
}

/// The entity of line `i` is among the entities from line `j` up to the root
/// exactly if line `i` is `j` or above it.
pub proof fn lemma_ancestors_hold(s: Seq<Node>, i: int, j: int)
    requires
        outline_wf(s),
        0 <= i < s.len(),
        0 <= j < s.len(),
    ensures
        ancestors_from(s, j).contains(s[i].entity) == is_ancestor_line(s, i, j),
    decreases j,
{
    lemma_ancestors_from(s, j);
    let chain = ancestors_from(s, j);
    if i == j {
        assert(chain[0] == s[i].entity);
    } else {
        assert(s[i].entity != s[j].entity) by {
            if i < j {
                assert(s[i].entity != s[j].entity);
            } else {
                assert(s[j].entity != s[i].entity);
            }
        }
        if j == 0 {
            assert(parent_index(s, 0) == -1);
            assert(!is_ancestor_line(s, i, -1));
            assert(chain =~= seq![s[0].entity]);
            if chain.contains(s[i].entity) {
                let k = choose|k: int| 0 <= k < chain.len() && chain[k] == s[i].entity;
                assert(false);
            }
        } else {
            lemma_parent(s, j);
            let p = parent_index(s, j);
            lemma_ancestors_hold(s, i, p);
            let rest = ancestors_from(s, p);
            assert(chain =~= seq![s[j].entity] + rest);
            if chain.contains(s[i].entity) {
                let k = choose|k: int| 0 <= k < chain.len() && chain[k] == s[i].entity;
                assert(k > 0);
                assert(rest[k - 1] == s[i].entity);
            }
            if rest.contains(s[i].entity) {
                let k = choose|k: int| 0 <= k < rest.len() && rest[k] == s[i].entity;
                assert(chain[k + 1] == s[i].entity);
            }
        }
    }
}

/// The entities of the lines `[from, to)` that are exactly `d` deep, in order.
pub open spec fn at_depth(s: Seq<Node>, d: int, from: int, to: int) -> Seq<Entity>
    decreases to - from,
{
    if to <= from {
        Seq::empty()
    } else if s[to - 1].depth == d {
        at_depth(s, d, from, to - 1).push(s[to - 1].entity)
    } else {
        at_depth(s, d, from, to - 1)
    }
}

/// The children of line `i`, in the order in which they were added: the lines of
/// its subtree that are one level deeper than `i`.
pub open spec fn children_at(s: Seq<Node>, i: int) -> Seq<Entity> {
    at_depth(s, s[i].depth + 1, i + 1, subtree_end(s, i))
}

/// What `at_depth` lists are the entities of the lines of the run that are `d`
/// deep.
pub proof fn lemma_at_depth(s: Seq<Node>, d: int, from: int, to: int, x: Entity)
    requires
        0 <= from,
        to <= s.len(),
    ensures
        at_depth(s, d, from, to).contains(x) == exists|j: int|
            from <= j < to && (#[trigger] s[j]).depth == d && s[j].entity == x,
    decreases to - from,
{
    if to > from {
        lemma_at_depth(s, d, from, to - 1, x);
        let before = at_depth(s, d, from, to - 1);
        if s[to - 1].depth == d {
            let now = before.push(s[to - 1].entity);
            if now.contains(x) {
                let k = choose|k: int| 0 <= k < now.len() && now[k] == x;
                if k < before.len() {
                    assert(before[k] == x);
                    let j = choose|j: int|
                        from <= j < to - 1 && (#[trigger] s[j]).depth == d && s[j].entity == x;
                    assert(from <= j < to && s[j].depth == d && s[j].entity == x);
                } else {
                    assert(from <= to - 1 < to && s[to - 1].depth == d && s[to - 1].entity == x);
                }
            }
            if exists|j: int| from <= j < to && (#[trigger] s[j]).depth == d && s[j].entity == x {
                let j = choose|j: int|
                    from <= j < to && (#[trigger] s[j]).depth == d && s[j].entity == x;
                if j == to - 1 {
                    assert(now[now.len() - 1] == x);
                } else {
                    assert(from <= j < to - 1 && s[j].depth == d && s[j].entity == x);
                    let k = choose|k: int| 0 <= k < before.len() && before[k] == x;
                    assert(now[k] == x);
                }
            }
        } else {
            if exists|j: int| from <= j < to && (#[trigger] s[j]).depth == d && s[j].entity == x {
                let j = choose|j: int|
                    from <= j < to && (#[trigger] s[j]).depth == d && s[j].entity == x;
                assert(from <= j < to - 1 && s[j].depth == d && s[j].entity == x);
            }
            if before.contains(x) {
                let j = choose|j: int|
                    from <= j < to - 1 && (#[trigger] s[j]).depth == d && s[j].entity == x;
                assert(from <= j < to && s[j].depth == d && s[j].entity == x);
            }
        }
    } else {
        assert(!at_depth(s, d, from, to).contains(x));
    }
}

/// Outlines that agree on a run of lines list the same entities at a depth there.
pub proof fn lemma_at_depth_agree(s: Seq<Node>, t: Seq<Node>, d: int, from: int, to: int)
    requires
        0 <= from,
        to <= s.len(),
        to <= t.len(),
        forall|j: int| from <= j < to ==> s[j] == t[j],
    ensures
        at_depth(s, d, from, to) == at_depth(t, d, from, to),
    decreases to - from,
{
    if to > from {
        lemma_at_depth_agree(s, t, d, from, to - 1);
    }
}

/// The lines whose parent is line `i` are the lines of the subtree of `i` that are
/// one level deeper than `i`.
pub proof fn lemma_child_lines(s: Seq<Node>, i: int, j: int)
    requires
        outline_wf(s),
        0 <= i < s.len(),
        1 <= j < s.len(),
    ensures
        parent_index(s, j) == i <==> i < j < subtree_end(s, i) && s[j].depth == s[i].depth + 1,
{
    lemma_subtree_end(s, i);
    lemma_parent(s, j);
    if i < j < subtree_end(s, i) && s[j].depth == s[i].depth + 1 {
        assert forall|k: int| i < k < j implies (#[trigger] s[k]).depth >= s[j].depth by {
            assert(s[k].depth > s[i].depth);
        }
        lemma_last_shallower_is(s, j, s[j].depth as int, i);
    }
    if parent_index(s, j) == i {
        lemma_subtree_is_descendants(s, i, j);
        assert(is_ancestor_line(s, i, j)) by {
            assert(is_ancestor_line(s, i, i));
        }
    }
}

/// An outline in which no line is more than one level deeper than the line before
/// it has no line deeper than an earlier line by more than the lines between them.
pub proof fn lemma_steps(s: Seq<Node>, i: int, j: int)
    requires
        forall|k: int| 1 <= k < s.len() ==> (#[trigger] s[k]).depth <= s[k - 1].depth + 1,
        0 <= i <= j < s.len(),
    ensures
        s[j].depth <= s[i].depth + (j - i),
    decreases j - i,
{
    if i < j {
        lemma_steps(s, i, j - 1);
        assert(s[j].depth <= s[j - 1].depth + 1);
    }
}

/// The tree of entities: who is whose parent, and in which order siblings stand.
///
/// It is kept as its pre-order outline, so walking the vector front to back visits
/// every parent before its children and every subtree as one run.
pub struct Tree {
    nodes: Vec<Node>,
}

impl View for Tree {
    type V = Seq<Node>;

    closed spec fn view(&self) -> Seq<Node> {
        self.nodes@
    }
}

impl Tree {
    /// The outline is that of one tree below the root, and its length fits.
    pub open spec fn wf(&self) -> bool {
        outline_wf(self@) && self@.len() <= usize::MAX
    }

    /// Whether `e` is in the tree. A stale handle is not.
    pub open spec fn contains(&self, e: Entity) -> bool {
        line_of(self@, e) >= 0
    }

    /// The parent of `e`; `None` for the root and for an entity that is not in the
    /// tree.
    pub open spec fn parent_of(&self, e: Entity) -> Option<Entity> {
        let i = line_of(self@, e);
        if i >= 1 {
            Some(self@[parent_index(self@, i)].entity)
        } else {
            None
        }
    }

    /// `e` and the entities above it up to the root, nearest first; empty for an
    /// entity that is not in the tree.
    pub open spec fn ancestors_of(&self, e: Entity) -> Seq<Entity> {
        ancestors_from(self@, line_of(self@, e))
    }

    /// `e` and everything below it in pre-order; empty for an entity that is not in
    /// the tree.
    pub open spec fn subtree_of(&self, e: Entity) -> Seq<Entity> {
        let i = line_of(self@, e);
        if i >= 0 {
            entities_between(self@, i, subtree_end(self@, i))
        } else {
            Seq::empty()
        }
    }

    /// The children of `e`, in the order in which they were added; empty for an
    /// entity that is not in the tree.
    pub open spec fn children_of(&self, e: Entity) -> Seq<Entity> {
        let i = line_of(self@, e);
        if i >= 0 {
            children_at(self@, i)
        } else {
            Seq::empty()
        }
    }

    /// Whether `x` is `e` or lies below `e`.
    pub open spec fn in_subtree_of(&self, e: Entity, x: Entity) -> bool {
        &&& self.contains(e)
        &&& self.contains(x)
        &&& in_subtree(self@, line_of(self@, e), line_of(self@, x))
    }

    /// The subtree of `e` lists exactly the entities that are `e` or lie below it.
    pub proof fn lemma_subtree_members(&self, e: Entity, x: Entity)
        requires
            self.wf(),
        ensures
            self.subtree_of(e).contains(x) == self.in_subtree_of(e, x),
            self.preorder().contains(x) == self.contains(x),
    {
        lemma_line_of(self@, e);
        lemma_line_of(self@, x);
        let i = line_of(self@, e);
        if i >= 0 {
            lemma_subtree_end(self@, i);
            lemma_entities_between(self@, i, subtree_end(self@, i), x);
        }
        lemma_entities_between(self@, 0, self@.len() as int, x);
    }

    /// Every entity of the tree, each parent before its children, siblings in the
    /// order in which they were added.
    pub open spec fn preorder(&self) -> Seq<Entity> {
        entities_between(self@, 0, self@.len() as int)
    }

    /// Where `x` stands and whose child it is once `entity` was added as the last
    /// child of `parent`.
    proof fn lemma_added_one(&self, after: Tree, entity: Entity, parent: Entity, x: Entity)
        requires
            self.wf(),
            self.contains(parent),
            !self.contains(entity),
            after@ == outline_add(self@, line_of(self@, parent), entity),
        ensures
            after.contains(x) == (self.contains(x) || x == entity),
            self.contains(x) ==> after.parent_of(x) == self.parent_of(x),
            x == entity ==> after.parent_of(x) == Some(parent),
    {
        let s = self@;
        let t = after@;
        lemma_line_of(s, parent);
        lemma_line_of(s, entity);
        let p = line_of(s, parent);
        let k = subtree_end(s, p);
        lemma_add(s, p, entity);
        lemma_subtree_end(s, p);
        lemma_add_lines(s, p, entity, x);
        lemma_line_of(s, x);
        let j = line_of(s, x);
        if x == entity {
            assert(t[p] == s[p]);
        } else if j >= 1 {
            lemma_parent(s, j);
            let r0 = parent_index(s, j);
            assert(parent_index(t, shifted_up(j, k)) == shifted_up(r0, k));
            assert(t[shifted_up(r0, k)] == s[r0]);
        }
    }

    /// What holds of a tree to which `entity` was added as the last child of
    /// `parent`.
    pub proof fn lemma_added(&self, after: Tree, entity: Entity, parent: Entity)
        requires
            self.wf(),
            self.contains(parent),
            !self.contains(entity),
            after@ == outline_add(self@, line_of(self@, parent), entity),
        ensures
            outline_wf(after@),
            after.parent_of(entity) == Some(parent),
            forall|x: Entity| #[trigger] after.contains(x) == (self.contains(x) || x == entity),
            forall|x: Entity| self.contains(x) ==> #[trigger] after.parent_of(x) == self.parent_of(x),
    {
        lemma_line_of(self@, parent);
        lemma_line_of(self@, entity);
        lemma_add(self@, line_of(self@, parent), entity);
        self.lemma_added_one(after, entity, parent, entity);
        assert forall|x: Entity| #[trigger] after.contains(x) == (self.contains(x) || x
            == entity) by {
            self.lemma_added_one(after, entity, parent, x);
        }
        assert forall|x: Entity| self.contains(x) implies #[trigger] after.parent_of(x)
            == self.parent_of(x) by {
            self.lemma_added_one(after, entity, parent, x);
        }
    }

    /// Whether `x` is still there and whose child it is once `entity` was taken out
    /// with everything below it.
    #[verifier::rlimit(40)]
    proof fn lemma_removed_one(&self, after: Tree, entity: Entity, x: Entity)
        requires
            self.wf(),
            self.contains(entity),
            entity != Entity::spec_root(),
            after@ == outline_remove(self@, line_of(self@, entity)),
        ensures
            after.contains(x) == (self.contains(x) && !self.in_subtree_of(entity, x)),
            after.contains(x) ==> after.parent_of(x) == self.parent_of(x),
    {
        let s = self@;
        let t = after@;
        lemma_line_of(s, entity);
        let i = line_of(s, entity);
        let e = subtree_end(s, i);
        lemma_remove(s, i);
        lemma_subtree_end(s, i);
        lemma_remove_lines(s, i, x);
        lemma_line_of(s, x);
        let jx = line_of(s, x);
        if after.contains(x) && jx >= 1 {
            lemma_parent(s, jx);
            let r0 = parent_index(s, jx);
            assert(!in_subtree(s, i, r0));
            assert(parent_index(t, shifted_down(jx, i, e)) == shifted_down(r0, i, e));
            assert(t[shifted_down(r0, i, e)] == s[r0]);
        }
    }

    /// What holds of a tree from which `entity` was taken out with everything below
    /// it.
    pub proof fn lemma_removed(&self, after: Tree, entity: Entity)
        requires
            self.wf(),
            self.contains(entity),
            entity != Entity::spec_root(),
            after@ == outline_remove(self@, line_of(self@, entity)),
        ensures
            after.wf(),
            forall|x: Entity|
                #[trigger] after.contains(x) == (self.contains(x) && !self.in_subtree_of(entity, x)),
            forall|x: Entity| after.contains(x) ==> #[trigger] after.parent_of(x) == self.parent_of(x),
    {
        lemma_line_of(self@, entity);
        lemma_remove(self@, line_of(self@, entity));
        lemma_subtree_end(self@, line_of(self@, entity));
        assert forall|x: Entity| #[trigger] after.contains(x) == (self.contains(x)
            && !self.in_subtree_of(entity, x)) by {
            self.lemma_removed_one(after, entity, x);
        }
        assert forall|x: Entity| after.contains(x) implies #[trigger] after.parent_of(x)
            == self.parent_of(x) by {
            self.lemma_removed_one(after, entity, x);
        }
    }

    /// Every entity of the tree but the root has exactly one parent, which is in the
    /// tree too and stands before it; the root has none. Going from parent to parent
    /// ends at the root.
    pub proof fn lemma_one_parent(&self, e: Entity)
        requires
            self.wf(),
            self.contains(e),
        ensures
            e == Entity::spec_root() <==> self.parent_of(e) is None,
            self.parent_of(e) matches Some(p) ==> self.contains(p) && p != e && line_of(self@, p)
                < line_of(self@, e),
            self.ancestors_of(e).len() >= 1,
            self.ancestors_of(e)[0] == e,
            self.ancestors_of(e).last() == Entity::spec_root(),
            self.parent_of(e) matches Some(p) ==> self.ancestors_of(e) == seq![e]
                + self.ancestors_of(p),
            e == Entity::spec_root() ==> self.ancestors_of(e) == seq![e],
    {
        let s = self@;
        lemma_line_of(s, e);
        let i = line_of(s, e);
        lemma_ancestors_from(s, i);
        if i >= 1 {
            lemma_parent(s, i);
            let p = parent_index(s, i);
            lemma_line_of_is(s, p);
            lemma_line_of_is(s, 0);
            assert(s[p].entity != s[i].entity);
        } else {
            lemma_line_of_is(s, 0);
        }
    }

    /// `e` is among the ancestors of `x` exactly if `x` lies in the subtree of `e`.
    pub proof fn lemma_descendants(&self, e: Entity, x: Entity)
        requires
            self.wf(),
            self.contains(e),
            self.contains(x),
        ensures
            self.ancestors_of(x).contains(e) == self.in_subtree_of(e, x),
    {
        let s = self@;
        lemma_line_of(s, e);
        lemma_line_of(s, x);
        let i = line_of(s, e);
        let j = line_of(s, x);
        lemma_subtree_is_descendants(s, i, j);
        lemma_ancestors_hold(s, i, j);
    }

    /// Once `e` is removed, nothing that had `e` among its ancestors is in the tree
    /// any more, and what is in the tree still leads to the root by the parents it
    /// had.
    pub proof fn lemma_remove_leaves_no_descendant(&self, after: Tree, e: Entity, x: Entity)
        requires
            self.wf(),
            self.contains(e),
            e != Entity::spec_root(),
            after@ == outline_remove(self@, line_of(self@, e)),
        ensures
            after.wf(),
            self.ancestors_of(x).contains(e) ==> !after.contains(x),
            after.contains(x) ==> self.contains(x) && after.parent_of(x) == self.parent_of(x)
                && after.ancestors_of(x).last() == Entity::spec_root(),
    {
        self.lemma_removed(after, e);
        lemma_line_of(self@, x);
        if self.contains(x) {
            self.lemma_descendants(e, x);
        } else {
            assert(self.ancestors_of(x) =~= Seq::<Entity>::empty());
        }
        if after.contains(x) {
            after.lemma_one_parent(x);
        }
    }

    /// The children of an entity are exactly the entities whose parent it is.
    pub proof fn lemma_children(&self, e: Entity, x: Entity)
        requires
            self.wf(),
            self.contains(e),
        ensures
            self.children_of(e).contains(x) == (self.parent_of(x) == Some(e)),
    {
        let s = self@;
        lemma_line_of(s, e);
        lemma_line_of(s, x);
        let i = line_of(s, e);
        let d = s[i].depth + 1;
        lemma_subtree_end(s, i);
        lemma_at_depth(s, d, i + 1, subtree_end(s, i), x);
        if self.children_of(e).contains(x) {
            let j = choose|j: int|
                i + 1 <= j < subtree_end(s, i) && (#[trigger] s[j]).depth == d && s[j].entity == x;
            lemma_line_of_is(s, j);
            lemma_child_lines(s, i, j);
        }
        if self.parent_of(x) == Some(e) {
            let j = line_of(s, x);
            lemma_parent(s, j);
            lemma_line_of_is(s, parent_index(s, j));
            lemma_child_lines(s, i, j);
            assert(i + 1 <= j < subtree_end(s, i) && s[j].depth == d && s[j].entity == x);
        }
    }

    /// The entity that was added last under a parent is the last of its children.
    pub proof fn lemma_added_last(&self, after: Tree, entity: Entity, parent: Entity)
        requires
            self.wf(),
            self.contains(parent),
            !self.contains(entity),
            after@ == outline_add(self@, line_of(self@, parent), entity),
        ensures
            after.children_of(parent) == self.children_of(parent).push(entity),
    {
        let s = self@;
        let t = after@;
        lemma_line_of(s, parent);
        lemma_line_of(s, entity);
        let p = line_of(s, parent);
        let k = subtree_end(s, p);
        let d = s[p].depth as int;
        lemma_add(s, p, entity);
        lemma_subtree_end(s, p);
        lemma_add_lines(s, p, entity, parent);
        assert(line_of(t, parent) == p);
        assert(t[p] == s[p]);
        assert forall|j: int| p + 1 <= j < k + 1 implies (#[trigger] t[j]).depth > d by {
            if j < k {
                assert(t[j] == s[j]);
                assert(s[j].depth > d);
            }
        }
        if k + 1 < t.len() {
            assert(t[k + 1] == s[k]);
        }
        lemma_first_not_deeper_is(t, p + 1, d, k + 1);
        assert forall|j: int| p + 1 <= j < k implies s[j] == t[j] by {
            assert(t[j] == s[j]);
        }
        lemma_at_depth_agree(s, t, d + 1, p + 1, k);
    }

    /// A tree that holds the root alone.
    pub fn new() -> (t: Self)
        ensures
            t.wf(),
            t@ == seq![Node { entity: Entity::spec_root(), depth: 0 }],
            forall|e: Entity| #[trigger] t.contains(e) == (e == Entity::spec_root()),
            t.parent_of(Entity::spec_root()) is None,
    {
        let mut nodes: Vec<Node> = Vec::new();
        nodes.push(Node { entity: Entity::root(), depth: 0 });
        let t = Tree { nodes };
        proof {
            assert(t@ =~= seq![Node { entity: Entity::spec_root(), depth: 0 }]);
            lemma_line_of_is(t@, 0);
            assert forall|e: Entity| #[trigger] t.contains(e) == (e == Entity::spec_root()) by {
                lemma_line_of(t@, e);
            }
        }
        t
    }

    /// Whether the outline is that of one tree below the root. It is, unless the
    /// tree was tampered with.
    pub fn check(&self) -> (b: bool)
        ensures
            b == self.wf(),
    {
        let n: usize = self.nodes.len();
        if n == 0 {
            return false;
        }
        if self.nodes[0].entity != Entity::root() || self.nodes[0].depth != 0 {
            return false;
        }
        let mut i: usize = 1;
        while i < n
            invariant
                1 <= i <= n,
                n == self@.len(),
                self@[0] == (Node { entity: Entity::spec_root(), depth: 0 }),
                forall|k: int| 1 <= k < i ==> 1 <= (#[trigger] self@[k]).depth <= self@[k - 1].depth + 1,
                forall|a: int, b: int|
                    0 <= a < b < i ==> (#[trigger] self@[a]).entity != (#[trigger] self@[b]).entity,
            decreases n - i,
        {
            let depth: usize = self.nodes[i].depth;
            let above: usize = self.nodes[i - 1].depth;
            if depth < 1 {
                return false;
            }
            if depth - 1 > above {
                proof {
                    if outline_wf(self@) {
                        assert(self@[i as int].depth <= self@[i - 1].depth + (i - (i - 1)));
                    }
                }
                return false;
            }
            let mut j: usize = 0;
            while j < i
                invariant
                    j <= i < n,
                    n == self@.len(),
                    forall|a: int| 0 <= a < j ==> (#[trigger] self@[a]).entity != self@[i as int].entity,
                decreases i - j,
            {
                if self.nodes[j].entity == self.nodes[i].entity {
                    return false;
                }
                j += 1;
            }
            i += 1;
        }
        proof {
            assert forall|a: int, b: int| 0 <= a < b < self@.len() implies (
            #[trigger] self@[b]).depth <= (#[trigger] self@[a]).depth + (b - a) by {
                lemma_steps(self@, a, b);
            }
        }
        true
    }

    /// The number of entities in the tree.
    pub fn len(&self) -> (n: usize)
        ensures
            n == self@.len(),
    {
        self.nodes.len()
    }

    /// The entity at line `i` of the pre-order.
    pub fn entity_at(&self, i: usize) -> (e: Entity)
        requires
            i < self@.len(),
        ensures
            e == self@[i as int].entity,
    {
        self.nodes[i].entity
    }

    /// The depth of line `i` of the pre-order.
    pub fn depth_at(&self, i: usize) -> (d: usize)
        requires
            i < self@.len(),
        ensures
            d == self@[i as int].depth,
    {
        self.nodes[i].depth
    }

    /// The line at which `e` stands, if it is in the tree.
    pub fn position(&self, e: Entity) -> (r: Option<usize>)
        requires
            self.wf(),
        ensures
            r is Some == self.contains(e),
            r matches Some(i) ==> i == line_of(self@, e) && i < self@.len() && self@[i as int].entity
                == e,
            r is None ==> forall|j: int| 0 <= j < self@.len() ==> (#[trigger] self@[j]).entity != e,
    {
        let mut i: usize = 0;
        while i < self.nodes.len()
            invariant
                i <= self.nodes.len(),
                self.wf(),
                forall|j: int| 0 <= j < i ==> (#[trigger] self@[j]).entity != e,
            decreases self.nodes.len() - i,
        {
            if self.nodes[i].entity == e {
                proof {
                    lemma_line_of_is(self@, i as int);
                }
                return Some(i);
            }
            i += 1;
        }
        proof {
            lemma_line_of(self@, e);
        }
        None
    }

    /// Whether `e` is in the tree.
    pub fn contains_entity(&self, e: Entity) -> (b: bool)
        requires
            self.wf(),
        ensures
            b == self.contains(e),
    {
        self.position(e).is_some()
    }

    /// The line of the parent of line `i`.
    pub fn parent_position(&self, i: usize) -> (p: usize)
        requires
            self.wf(),
            1 <= i < self@.len(),
        ensures
            p == parent_index(self@, i as int),
            p < i,
    {
        let d: usize = self.nodes[i].depth;
        let mut j: usize = i - 1;
        proof {
            lemma_parent(self@, i as int);
        }
        while self.nodes[j].depth >= d
            invariant
                self.wf(),
                1 <= i < self@.len(),
                d == self@[i as int].depth,
                j < i,
                parent_index(self@, i as int) <= j,
                0 <= parent_index(self@, i as int),
                self@[parent_index(self@, i as int)].depth < d,
                forall|k: int| j < k < i ==> (#[trigger] self@[k]).depth >= d,
            decreases j,
        {
            j -= 1;
        }
        proof {
            lemma_last_shallower_is(self@, i as int, d as int, j as int);
        }
        j
    }

    /// One past the last line of the subtree of line `i`.
    pub fn subtree_end_position(&self, i: usize) -> (k: usize)
        requires
            i < self@.len(),
        ensures
            k == subtree_end(self@, i as int),
            i < k <= self@.len(),
    {
        let d: usize = self.nodes[i].depth;
        assert(i < self.nodes.len());
        let mut k: usize = i + 1;
        while k < self.nodes.len() && self.nodes[k].depth > d
            invariant
                i < k <= self.nodes.len(),
                d == self@[i as int].depth,
                forall|j: int| i < j < k ==> (#[trigger] self@[j]).depth > d,
            decreases self.nodes.len() - k,
        {
            k += 1;
        }
        proof {
            lemma_first_not_deeper_is(self@, i + 1, d as int, k as int);
        }
        k
    }

    /// The parent of `e`, if `e` is in the tree and is not the root.
    pub fn get_parent(&self, e: Entity) -> (r: Option<Entity>)
        requires
            self.wf(),
        ensures
            r == self.parent_of(e),
    {
        match self.position(e) {
            Some(i) => {
                if i == 0 {
                    None
                } else {
                    let p = self.parent_position(i);
                    Some(self.nodes[p].entity)
                }
            },
            None => None,
        }
    }

    /// Adds `entity` as the last child of `parent`.
    pub fn add(&mut self, entity: Entity, parent: Entity) -> (r: Result<(), TreeError>)
        requires
            old(self).wf(),
        ensures
            final(self).wf(),
            r == Err::<(), TreeError>(TreeError::NullEntity) <==> entity == Entity::spec_null(),
            r == Err::<(), TreeError>(TreeError::AlreadyExists) <==> entity != Entity::spec_null()
                && old(self).contains(entity),
            r == Err::<(), TreeError>(TreeError::NoParent) <==> entity != Entity::spec_null()
                && !old(self).contains(entity) && !old(self).contains(parent),
            r is Ok <==> entity != Entity::spec_null() && !old(self).contains(entity) && old(self).contains(parent),
            r is Err ==> *final(self) == *old(self),
            r is Ok ==> {
                &&& final(self)@ == outline_add(old(self)@, line_of(old(self)@, parent), entity)
                &&& final(self).parent_of(entity) == Some(parent)
                &&& final(self).children_of(parent) == old(self).children_of(parent).push(entity)
                &&& forall|x: Entity|
                    final(self).contains(x) == (old(self).contains(x) || x == entity)
                &&& forall|x: Entity|
                    old(self).contains(x) ==> final(self).parent_of(x) == old(self).parent_of(x)
            },
    {
        if entity.is_null() {
            return Err(TreeError::NullEntity);
        }
        if self.position(entity).is_some() {
            return Err(TreeError::AlreadyExists);
        }
        let p: usize = match self.position(parent) {
            Some(p) => p,
            None => {
                return Err(TreeError::NoParent);
            },
        };
        let k: usize = self.subtree_end_position(p);
        let ghost s = self@;
        let ghost before = *self;
        proof {
            lemma_depth_le_index(s, p as int);
            lemma_add(s, p as int, entity);
        }
        let depth: usize = self.nodes[p].depth + 1;
        self.nodes.insert(k, Node { entity, depth });
        let count: usize = self.nodes.len();
        proof {
            assert(self@.len() == count);
            assert(self@ == outline_add(s, p as int, entity));
            before.lemma_added(*self, entity, parent);
            before.lemma_added_last(*self, entity, parent);
        }
        Ok(())
    }

    /// Takes `entity` and everything below it out of the tree, and returns what was
    /// taken out, in pre-order.
    pub fn remove(&mut self, entity: Entity) -> (r: Result<Vec<Entity>, TreeError>)
        requires
            old(self).wf(),
        ensures
            final(self).wf(),
            r == Err::<Vec<Entity>, TreeError>(TreeError::IsRoot) <==> entity
                == Entity::spec_root(),
            r == Err::<Vec<Entity>, TreeError>(TreeError::NotFound) <==> entity
                != Entity::spec_root() && !old(self).contains(entity),
            r is Ok <==> entity != Entity::spec_root() && old(self).contains(entity),
            r is Err ==> *final(self) == *old(self),
            r matches Ok(removed) ==> {
                &&& final(self)@ == outline_remove(old(self)@, line_of(old(self)@, entity))
                &&& removed@ == old(self).subtree_of(entity)
                &&& removed@.len() >= 1
                &&& removed@[0] == entity
                &&& forall|x: Entity|
                    final(self).contains(x) == (old(self).contains(x) && !old(self).in_subtree_of(
                        entity,
                        x,
                    ))
                &&& forall|x: Entity|
                    final(self).contains(x) ==> final(self).parent_of(x) == old(self).parent_of(x)
            },
    {
        if entity == Entity::root() {
            return Err(TreeError::IsRoot);
        }
        let i: usize = match self.position(entity) {
            Some(i) => i,
            None => {
                return Err(TreeError::NotFound);
            },
        };
        let ghost s = self@;
        let ghost before = *self;
        proof {
            if i == 0 {
                assert(s[0].entity == Entity::spec_root());
            }
        }
        let e: usize = self.subtree_end_position(i);
        let mut removed: Vec<Entity> = Vec::new();
        let mut kept: Vec<Node> = Vec::new();
        let mut j: usize = 0;
        while j < self.nodes.len()
            invariant
                j <= self.nodes.len(),
                self@ == s,
                1 <= i < e <= s.len(),
                removed@ == entities_between(s, i as int, if j < i {
                    i as int
                } else if j < e {
                    j as int
                } else {
                    e as int
                }),
                kept@ == if j < i {
                    s.subrange(0, j as int)
                } else if j < e {
                    s.subrange(0, i as int)
                } else {
                    s.subrange(0, i as int) + s.subrange(e as int, j as int)
                },
            decreases self.nodes.len() - j,
        {
            let node = self.nodes[j];
            if i <= j && j < e {
                removed.push(node.entity);
                assert(removed@ =~= entities_between(s, i as int, j + 1));
            } else {
                kept.push(node);
                if j < i {
                    assert(kept@ =~= s.subrange(0, j + 1));
                } else {
                    assert(kept@ =~= s.subrange(0, i as int) + s.subrange(e as int, j + 1));
                }
            }
            j += 1;
        }
        self.nodes = kept;
        proof {
            assert(self@ =~= outline_remove(s, i as int));
            before.lemma_removed(*self, entity);
            lemma_line_of_is(s, i as int);
        }
        Ok(removed)
    }

    /// `e` and the entities above it up to the root, nearest first.
    pub fn ancestors(&self, e: Entity) -> (r: Vec<Entity>)
        requires
            self.wf(),
        ensures
            r@ == self.ancestors_of(e),
    {
        let mut out: Vec<Entity> = Vec::new();
        let start: usize = match self.position(e) {
            Some(i) => i,
            None => {
                assert(ancestors_from(self@, line_of(self@, e)) =~= Seq::<Entity>::empty());
                return out;
            },
        };
        out.push(e);
        let mut c: usize = start;
        let mut j: usize = start;
        proof {
            lemma_ancestors_from(self@, start as int);
            assert(out@.drop_last() + ancestors_from(self@, c as int) =~= ancestors_from(
                self@,
                start as int,
            ));
        }
        while j > 0
            invariant
                self.wf(),
                j <= c <= start < self@.len(),
                out@.len() >= 1,
                out@.last() == self@[c as int].entity,
                out@.drop_last() + ancestors_from(self@, c as int) == ancestors_from(
                    self@,
                    start as int,
                ),
                forall|k: int| j <= k < c ==> (#[trigger] self@[k]).depth >= self@[c as int].depth,
            decreases j,
        {
            j -= 1;
            if self.nodes[j].depth < self.nodes[c].depth {
                proof {
                    lemma_last_shallower_is(self@, c as int, self@[c as int].depth as int, j as int);
                    lemma_ancestors_from(self@, c as int);
                    lemma_ancestors_from(self@, j as int);
                    let before = out@;
                    let up = ancestors_from(self@, j as int);
                    assert((before.push(self@[j as int].entity)).drop_last() =~= before);
                    assert(before =~= before.drop_last() + seq![self@[c as int].entity]);
                    assert(before + up =~= before.drop_last() + (seq![self@[c as int].entity]
                        + up));
                }
                out.push(self.nodes[j].entity);
                c = j;
            }
        }
        proof {
            lemma_ancestors_from(self@, 0);
            if c != 0 {
                lemma_parent(self@, c as int);
                assert(false);
            }
            assert(out@ =~= out@.drop_last() + seq![Entity::spec_root()]);
        }
        out
    }

    /// The children of `e`, in the order in which they were added.
    pub fn children(&self, e: Entity) -> (r: Vec<Entity>)
        requires
            self.wf(),
        ensures
            r@ == self.children_of(e),
    {
        let mut out: Vec<Entity> = Vec::new();
        let i: usize = match self.position(e) {
            Some(i) => i,
            None => {
                return out;
            },
        };
        let end: usize = self.subtree_end_position(i);
        proof {
            lemma_depth_le_index(self@, i as int);
        }
        let d: usize = self.nodes[i].depth + 1;
        let mut j: usize = i + 1;
        while j < end
            invariant
                i + 1 <= j <= end <= self@.len(),
                out@ == at_depth(self@, d as int, i + 1, j as int),
            decreases end - j,
        {
            if self.nodes[j].depth == d {
                out.push(self.nodes[j].entity);
            }
            j += 1;
        }
        out
    }

    /// `e` and everything below it, in pre-order.
    pub fn branch(&self, e: Entity) -> (r: Vec<Entity>)
        requires
            self.wf(),
        ensures
            r@ == self.subtree_of(e),
    {
        let mut out: Vec<Entity> = Vec::new();
        let i: usize = match self.position(e) {
            Some(i) => i,
            None => {
                return out;
            },
        };
        let end: usize = self.subtree_end_position(i);
        let mut j: usize = i;
        assert(out@ =~= entities_between(self@, i as int, j as int));
        while j < end
            invariant
                i <= j <= end <= self@.len(),
                out@ == entities_between(self@, i as int, j as int),
            decreases end - j,
        {
            out.push(self.nodes[j].entity);
            j += 1;
            assert(out@ =~= entities_between(self@, i as int, j as int));
        }
        out
    }

    /// Every entity of the tree in pre-order.
    pub fn entities(&self) -> (r: Vec<Entity>)
        ensures
            r@ == self.preorder(),
    {
        let mut out: Vec<Entity> = Vec::new();
        let mut j: usize = 0;
        assert(out@ =~= entities_between(self@, 0, 0));
        while j < self.nodes.len()
            invariant
                j <= self.nodes.len(),
                out@ == entities_between(self@, 0, j as int),
            decreases self.nodes.len() - j,
        {
            out.push(self.nodes[j].entity);
            j += 1;
            assert(out@ =~= entities_between(self@, 0, j as int));
        }
        out
    }

    /// A copy of the tree as it stands now.
    pub fn snapshot(&self) -> (t: Tree)
        ensures
            t@ == self@,
    {
        let mut nodes: Vec<Node> = Vec::new();
        let mut j: usize = 0;
        while j < self.nodes.len()
            invariant
                j <= self.nodes.len(),
                nodes@ == self@.subrange(0, j as int),
            decreases self.nodes.len() - j,
        {
            nodes.push(self.nodes[j]);
            j += 1;
            assert(nodes@ =~= self@.subrange(0, j as int));
        }
        assert(nodes@ =~= self@);
        Tree { nodes }
    }
}

} // verus!
