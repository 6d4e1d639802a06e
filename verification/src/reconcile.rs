//! The decisions the renderer takes when it reconciles a fresh tree with the
//! live DOM: which existing child each new child reuses (by key, else by
//! position), which attributes have disappeared, and which form-field
//! properties must be written.

use vstd::prelude::*;

use crate::html::Attr;
use crate::model;
use crate::text::same_text;

verus! {

// ---------------------------------------------------------------------------
// Child matching
// ---------------------------------------------------------------------------

/// The old child at `j` carries the key `key`.
pub open spec fn old_has_key(old_keys: Seq<Option<String>>, j: int, key: String) -> bool {
    0 <= j < old_keys.len() && match old_keys[j] {
        Some(k) => k@ == key@,
        None => false,
    }
}

/// Some keyed new child before `i` already reuses old child `j`.
pub open spec fn taken_before(
    new_keys: Seq<Option<String>>,
    plan: Seq<Option<usize>>,
    i: int,
    j: int,
) -> bool {
    exists|i2: int|
        0 <= i2 < i && new_keys[i2] is Some && #[trigger] plan[i2] == Some(j as usize)
}

/// The choice for keyed new child `i` (with key `key`): the first old child
/// with that key that no earlier keyed child took, or nothing when every
/// such old child is taken.
pub open spec fn keyed_choice(
    new_keys: Seq<Option<String>>,
    old_keys: Seq<Option<String>>,
    plan: Seq<Option<usize>>,
    i: int,
    key: String,
) -> bool {
    match plan[i] {
        Some(j) => {
            &&& old_has_key(old_keys, j as int, key)
            &&& !taken_before(new_keys, plan, i, j as int)
            &&& forall|j2: int|
                0 <= j2 < j && #[trigger] old_has_key(old_keys, j2, key) ==> taken_before(
                    new_keys,
                    plan,
                    i,
                    j2,
                )
        },
        None => forall|j: int|
            #[trigger] old_has_key(old_keys, j, key) ==> taken_before(new_keys, plan, i, j),
    }
}

/// The choice for unkeyed new child `i`: the old child at the same position
/// when that one is unkeyed too, else nothing.
pub open spec fn positional_choice(old_keys: Seq<Option<String>>, i: int) -> Option<usize> {
    if i < old_keys.len() && old_keys[i] is None {
        Some(i as usize)
    } else {
        None
    }
}

/// `plan[i]` names the old child that new child `i` reuses, if any: keyed
/// children match by key, first-come first-served in the new order; unkeyed
/// children match positionally and never take a keyed old child's slot.
pub open spec fn is_reuse_plan(
    new_keys: Seq<Option<String>>,
    old_keys: Seq<Option<String>>,
    plan: Seq<Option<usize>>,
) -> bool {
    &&& plan.len() == new_keys.len()
    &&& forall|i: int|
        0 <= i < new_keys.len() ==> match #[trigger] new_keys[i] {
            Some(key) => keyed_choice(new_keys, old_keys, plan, i, key),
            None => plan[i] == positional_choice(old_keys, i),
        }
}

fn same_key(a: &String, b: &String) -> (r: bool)
    ensures
        r == (a@ == b@),
{
    *a == *b
}

proof fn lemma_taken_agree(
    new_keys: Seq<Option<String>>,
    p1: Seq<Option<usize>>,
    p2: Seq<Option<usize>>,
    i: int,
    j: int,
)
    requires
        i <= p1.len(),
        i <= p2.len(),
        forall|w: int| 0 <= w < i && new_keys[w] is Some ==> p1[w] == p2[w],
    ensures
        taken_before(new_keys, p1, i, j) == taken_before(new_keys, p2, i, j),
{
    if taken_before(new_keys, p1, i, j) {
        let w = choose|w: int|
            0 <= w < i && new_keys[w] is Some && #[trigger] p1[w] == Some(j as usize);
        assert(p2[w] == Some(j as usize));
    }
    if taken_before(new_keys, p2, i, j) {
        let w = choose|w: int|
            0 <= w < i && new_keys[w] is Some && #[trigger] p2[w] == Some(j as usize);
        assert(p1[w] == Some(j as usize));
    }
}

proof fn lemma_keyed_agree(
    new_keys: Seq<Option<String>>,
    old_keys: Seq<Option<String>>,
    p1: Seq<Option<usize>>,
    p2: Seq<Option<usize>>,
    q: int,
    key: String,
)
    requires
        0 <= q < p1.len(),
        q < p2.len(),
        forall|w: int| 0 <= w <= q && new_keys[w] is Some ==> p1[w] == p2[w],
        new_keys[q] == Some(key),
    ensures
        keyed_choice(new_keys, old_keys, p1, q, key) == keyed_choice(
            new_keys,
            old_keys,
            p2,
            q,
            key,
        ),
{
    assert forall|j: int| #[trigger] taken_before(new_keys, p1, q, j) == taken_before(
        new_keys,
        p2,
        q,
        j,
    ) by {
        lemma_taken_agree(new_keys, p1, p2, q, j);
    }
}

proof fn lemma_taken_step(new_keys: Seq<Option<String>>, plan: Seq<Option<usize>>, i: int, j: int)
    requires
        0 <= i < plan.len(),
    ensures
        taken_before(new_keys, plan, i + 1, j) == (taken_before(new_keys, plan, i, j) || (
        new_keys[i] is Some && plan[i] == Some(j as usize))),
{
    if taken_before(new_keys, plan, i + 1, j) && !(new_keys[i] is Some && plan[i] == Some(
        j as usize,
    )) {
        let w = choose|w: int|
            0 <= w < i + 1 && new_keys[w] is Some && #[trigger] plan[w] == Some(j as usize);
        assert(w < i);
    }
}

/// Decide which existing child each new child reuses.
///
/// Pass one matches keyed children by key, wherever they were. Pass two lets
/// unkeyed children fall back to their position, never stealing a slot that
/// belongs to a keyed node.
pub fn reuse_plan(new_keys: &Vec<Option<String>>, old_keys: &Vec<Option<String>>) -> (r: Vec<
    Option<usize>,
>)
    ensures
        is_reuse_plan(new_keys@, old_keys@, r@),
{
    let n = new_keys.len();
    let m = old_keys.len();
    let mut used: Vec<bool> = Vec::new();
    let mut j: usize = 0;
    while j < m
        invariant
            j <= m,
            m == old_keys@.len(),
            used@.len() == j,
            forall|q: int| 0 <= q < j ==> !used@[q],
        decreases m - j,
    {
        used.push(false);
        j = j + 1;
    }
    // Pass 1: keyed children match by key.
    let mut plan: Vec<Option<usize>> = Vec::new();
    let mut i: usize = 0;
    while i < n
        invariant
            i <= n,
            n == new_keys@.len(),
            m == old_keys@.len(),
            used@.len() == m,
            plan@.len() == i,
            forall|q: int|
                0 <= q < m ==> (#[trigger] used@[q] <==> taken_before(
                    new_keys@,
                    plan@,
                    i as int,
                    q,
                )),
            forall|q: int| 0 <= q < m && #[trigger] used@[q] ==> old_keys@[q] is Some,
            forall|q: int|
                0 <= q < i ==> match #[trigger] new_keys@[q] {
                    Some(key) => keyed_choice(new_keys@, old_keys@, plan@, q, key),
                    None => plan@[q] is None,
                },
        decreases n - i,
    {
        let mut choice: Option<usize> = None;
        let ghost old_used = used@;
        match &new_keys[i] {
            Some(key) => {
                let mut j: usize = 0;
                while j < m
                    invariant_except_break
                        choice is None,
                        forall|q: int|
                            0 <= q < j && #[trigger] old_has_key(old_keys@, q, *key) ==> used@[q],
                    invariant
                        j <= m,
                        m == old_keys@.len(),
                        used@.len() == m,
                    ensures
                        match choice {
                            Some(c) => {
                                &&& c < m
                                &&& !used@[c as int]
                                &&& old_has_key(old_keys@, c as int, *key)
                                &&& forall|q: int|
                                    0 <= q < c && #[trigger] old_has_key(old_keys@, q, *key)
                                        ==> used@[q]
                            },
                            None => forall|q: int|
                                0 <= q < m && #[trigger] old_has_key(old_keys@, q, *key)
                                    ==> used@[q],
                        },
                    decreases m - j,
                {
                    let hit = match &old_keys[j] {
                        Some(k) => same_key(k, key),
                        None => false,
                    };
                    if !used[j] && hit {
                        choice = Some(j);
                        break;
                    }
                    j = j + 1;
                }
                if let Some(c) = choice {
                    used.set(c, true);
                }
            },
            None => {},
        }
        let ghost old_plan = plan@;
        plan.push(choice);
        proof {
            let np = plan@;
            assert forall|w: int| 0 <= w < i implies np[w] == old_plan[w] by {}
            assert forall|q: int|
                0 <= q < m implies (#[trigger] used@[q] <==> taken_before(
                new_keys@,
                np,
                i + 1,
                q,
            )) by {
                lemma_taken_agree(new_keys@, old_plan, np, i as int, q);
                lemma_taken_step(new_keys@, np, i as int, q);
            }
            assert forall|q: int| 0 <= q < i + 1 implies match #[trigger] new_keys@[q] {
                Some(key) => keyed_choice(new_keys@, old_keys@, np, q, key),
                None => np[q] is None,
            } by {
                if q < i {
                    if let Some(key) = new_keys@[q] {
                        lemma_keyed_agree(new_keys@, old_keys@, old_plan, np, q, key);
                    }
                } else {
                    if let Some(key) = new_keys@[q] {
                        assert forall|jj: int| #[trigger] taken_before(new_keys@, np, q, jj)
                            == taken_before(new_keys@, old_plan, q, jj) by {
                            lemma_taken_agree(new_keys@, old_plan, np, q, jj);
                        }
                        match choice {
                            Some(c) => {
                                assert(!old_used[c as int]);
                            },
                            None => {},
                        }
                    }
                }
            }
        }
        i = i + 1;
    }
    // Pass 2: unkeyed children fall back to their position.
    let ghost plan1 = plan@;
    let mut i: usize = 0;
    while i < n
        invariant
            i <= n,
            n == new_keys@.len(),
            m == old_keys@.len(),
            used@.len() == m,
            plan@.len() == n,
            plan1.len() == n,
            forall|q: int| 0 <= q < m && #[trigger] used@[q] ==> old_keys@[q] is Some,
            forall|q: int| 0 <= q < n && new_keys@[q] is Some ==> #[trigger] plan@[q] == plan1[q],
            forall|q: int|
                0 <= q < n ==> match #[trigger] new_keys@[q] {
                    Some(key) => keyed_choice(new_keys@, old_keys@, plan1, q, key),
                    None => plan1[q] is None,
                },
            forall|q: int|
                0 <= q < i && new_keys@[q] is None ==> #[trigger] plan@[q] == positional_choice(
                    old_keys@,
                    q,
                ),
            forall|q: int| i <= q < n && new_keys@[q] is None ==> #[trigger] plan@[q] is None,
        decreases n - i,
    {
        if plan[i].is_none() && new_keys[i].is_none() && i < m && old_keys[i].is_none()
            && !used[i] {
            plan.set(i, Some(i));
        }
        i = i + 1;
    }
    proof {
        assert forall|q: int| 0 <= q < n implies match #[trigger] new_keys@[q] {
            Some(key) => keyed_choice(new_keys@, old_keys@, plan@, q, key),
            None => plan@[q] == positional_choice(old_keys@, q),
        } by {
            if let Some(key) = new_keys@[q] {
                lemma_keyed_agree(new_keys@, old_keys@, plan1, plan@, q, key);
            }
        }
    }
    plan
}

/// Every reuse points at an existing old child, and no old child is reused
/// twice: each live DOM node ends up in at most one place.
pub proof fn lemma_reuse_plan_injective(
    new_keys: Seq<Option<String>>,
    old_keys: Seq<Option<String>>,
    plan: Seq<Option<usize>>,
)
    requires
        is_reuse_plan(new_keys, old_keys, plan),
        old_keys.len() <= usize::MAX,
    ensures
        forall|i: int|
            0 <= i < plan.len() && #[trigger] plan[i] is Some ==> plan[i]->0 < old_keys.len(),
        forall|i1: int, i2: int|
            0 <= i1 < plan.len() && 0 <= i2 < plan.len() && i1 != i2 && #[trigger] plan[i1] is Some
                ==> plan[i1] != #[trigger] plan[i2],
{
    assert forall|i: int| 0 <= i < plan.len() && #[trigger] plan[i] is Some implies plan[i]->0
        < old_keys.len() by {
        match new_keys[i] {
            Some(key) => {},
            None => {},
        }
    }
    assert forall|i1: int, i2: int|
        0 <= i1 < plan.len() && 0 <= i2 < plan.len() && i1 != i2 && #[trigger] plan[i1] is Some
            implies plan[i1] != #[trigger] plan[i2] by {
        if plan[i1] == plan[i2] {
            let j = plan[i1]->0;
            match (new_keys[i1], new_keys[i2]) {
                (Some(k1), Some(k2)) => {
                    if i1 < i2 {
                        assert(taken_before(new_keys, plan, i2, j as int));
                    } else {
                        assert(taken_before(new_keys, plan, i1, j as int));
                    }
                },
                (Some(k1), None) => {
                    assert(old_has_key(old_keys, j as int, k1));
                },
                (None, Some(k2)) => {
                    assert(old_has_key(old_keys, j as int, k2));
                },
                (None, None) => {
                    assert(plan[i1] == Some(i1 as usize));
                    assert(plan[i2] == Some(i2 as usize));
                },
            }
        }
    }
}

/// No two children carry the same key.
pub open spec fn keys_unique(keys: Seq<Option<String>>) -> bool {
    forall|a: int, b: int|
        0 <= a < keys.len() && 0 <= b < keys.len() && a != b && #[trigger] keys[a] is Some
            && #[trigger] keys[b] is Some ==> keys[a]->0@ != keys[b]->0@
}

/// When keys are unique among siblings, in both trees, every keyed child
/// whose key was rendered before reuses exactly the node that carried it:
/// reorders move nodes instead of rebuilding them.
pub proof fn lemma_unique_keys_are_matched(
    new_keys: Seq<Option<String>>,
    old_keys: Seq<Option<String>>,
    plan: Seq<Option<usize>>,
    i: int,
    j: int,
)
    requires
        is_reuse_plan(new_keys, old_keys, plan),
        old_keys.len() <= usize::MAX,
        keys_unique(new_keys),
        keys_unique(old_keys),
        0 <= i < new_keys.len(),
        new_keys[i] is Some,
        old_has_key(old_keys, j, new_keys[i]->0),
    ensures
        plan[i] == Some(j as usize),
{
    let key = new_keys[i]->0;
    assert(keyed_choice(new_keys, old_keys, plan, i, key));
    if taken_before(new_keys, plan, i, j) {
        let w = choose|w: int|
            0 <= w < i && new_keys[w] is Some && #[trigger] plan[w] == Some(j as usize);
        let kw = new_keys[w]->0;
        assert(keyed_choice(new_keys, old_keys, plan, w, kw));
        assert(old_has_key(old_keys, j, kw));
    }
    match plan[i] {
        Some(c) => {
            assert(old_has_key(old_keys, c as int, key));
        },
        None => {},
    }
}


// ---------------------------------------------------------------------------
// Placing children
// ---------------------------------------------------------------------------

/// One DOM step of placing a parent's children. Nodes are named by numbers
/// the renderer hands out.
#[derive(Clone, Copy, Debug, PartialEq, Eq, Structural)]
pub enum Placement {
    /// Attach `node` immediately before the child `before`, or last when
    /// there is none; a node that is already a child moves.
    InsertBefore { node: usize, before: Option<usize> },
    /// Detach the child `node`.
    Remove(usize),
}

/// `children` without `x` (unchanged when `x` is not a child).
pub open spec fn without(children: Seq<usize>, x: usize) -> Seq<usize> {
    if children.contains(x) {
        children.remove(model::first_index(children, x))
    } else {
        children
    }
}

/// The children after one placement step, as `insertBefore` and
/// `removeChild` change them.
pub open spec fn apply_placement(children: Seq<usize>, op: Placement) -> Seq<usize> {
    match op {
        Placement::InsertBefore { node, before } => {
            let rest = without(children, node);
            match before {
                Some(b) => if rest.contains(b) {
                    rest.insert(model::first_index(rest, b), node)
                } else {
                    children
                },
                None => rest.push(node),
            }
        },
        Placement::Remove(x) => without(children, x),
    }
}

/// The children after the placement steps, in order.
pub open spec fn apply_placements(children: Seq<usize>, ops: Seq<Placement>) -> Seq<usize>
    decreases ops.len(),
{
    if ops.len() == 0 {
        children
    } else {
        apply_placement(apply_placements(children, ops.drop_last()), ops.last())
    }
}


/// One step of the cursor walk at position `p` for the desired node `want`:
/// a node already at the cursor is passed over with no step; any other node
/// is inserted (or moved) before the cursor, or last when the cursor is past
/// the end.
pub open spec fn walk_step(children: Seq<usize>, p: int, want: usize) -> (Seq<usize>, Seq<
    Placement,
>) {
    if p < children.len() && children[p] == want {
        (children, Seq::empty())
    } else {
        let op = Placement::InsertBefore {
            node: want,
            before: if p < children.len() {
                Some(children[p])
            } else {
                None
            },
        };
        (apply_placement(children, op), seq![op])
    }
}

/// The children and the steps after the cursor has walked past every node of
/// `desired` (the cursor stands at position `desired.len()`).
pub open spec fn cursor_walk(current: Seq<usize>, desired: Seq<usize>) -> (Seq<usize>, Seq<
    Placement,
>)
    decreases desired.len(),
{
    if desired.len() == 0 {
        (current, Seq::empty())
    } else {
        let (c, ops) = cursor_walk(current, desired.drop_last());
        let (c2, more) = walk_step(c, desired.len() - 1, desired.last());
        (c2, ops + more)
    }
}

/// Removal of every child from position `from` on, in order.
pub open spec fn removals(children: Seq<usize>, from: int) -> Seq<Placement> {
    Seq::new((children.len() - from) as nat, |i: int| Placement::Remove(children[from + i]))
}

/// The steps of the cursor walk, followed by the removal of whatever the
/// cursor still points at.
pub open spec fn placement_steps(current: Seq<usize>, desired: Seq<usize>) -> Seq<Placement> {
    cursor_walk(current, desired).1 + removals(cursor_walk(current, desired).0, desired.len() as int)
}

proof fn lemma_walk_settled(d: Seq<usize>, k: int)
    requires
        0 <= k <= d.len(),
    ensures
        cursor_walk(d, d.take(k)) == (d, Seq::<Placement>::empty()),
    decreases k,
{
    if k > 0 {
        lemma_walk_settled(d, k - 1);
        assert(d.take(k).drop_last() =~= d.take(k - 1));
        assert(Seq::<Placement>::empty() + Seq::<Placement>::empty() =~= Seq::<Placement>::empty());
    }
}

/// Children that are already in the desired order are left alone: no node is
/// moved, inserted or removed.
pub proof fn lemma_settled_children_need_no_steps(d: Seq<usize>)
    ensures
        placement_steps(d, d) == Seq::<Placement>::empty(),
{
    lemma_walk_settled(d, d.len() as int);
    assert(d.take(d.len() as int) =~= d);
    assert(removals(d, d.len() as int) =~= Seq::<Placement>::empty());
    assert(Seq::<Placement>::empty() + Seq::<Placement>::empty() =~= Seq::<Placement>::empty());
}

proof fn lemma_first_at(s: Seq<usize>, x: usize, i: int)
    requires
        s.no_duplicates(),
        0 <= i < s.len(),
        s[i] == x,
    ensures
        s.contains(x),
        model::first_index(s, x) == i,
{
    model::lemma_first_index(s, x);
    assert(model::is_first_index(s, x, i));
}

fn find_child(children: &Vec<usize>, x: usize) -> (r: Option<usize>)
    ensures
        match r {
            Some(q) => q < children@.len() && children@[q as int] == x,
            None => !children@.contains(x),
        },
{
    let mut q: usize = 0;
    while q < children.len()
        invariant
            q <= children@.len(),
            forall|j: int| 0 <= j < q ==> children@[j] != x,
        decreases children@.len() - q,
    {
        if children[q] == x {
            return Some(q);
        }
        q = q + 1;
    }
    None
}

/// The steps that put a parent's children (`current`, in order) into the
/// order `desired`. A cursor walks the current children: a node already in
/// its place is passed over, any other desired node is inserted (or moved)
/// before the cursor, and whatever the cursor still points at when `desired`
/// runs out is removed. Afterwards the children are exactly `desired`.
pub fn placements(current: &Vec<usize>, desired: &Vec<usize>) -> (ops: Vec<Placement>)
    requires
        current@.no_duplicates(),
        desired@.no_duplicates(),
    ensures
        ops@ == placement_steps(current@, desired@),
        apply_placements(current@, ops@) == desired@,
{
    let mut children: Vec<usize> = current.clone();
    let mut ops: Vec<Placement> = Vec::new();
    let mut p: usize = 0;
    let mut k: usize = 0;
    assert(children@ =~= current@);
    while k < desired.len()
        invariant
            k <= desired@.len(),
            desired@.no_duplicates(),
            children@.no_duplicates(),
            apply_placements(current@, ops@) == children@,
            p == k,
            p <= children@.len(),
            children@.take(p as int) == desired@.take(k as int),
            (children@, ops@) == cursor_walk(current@, desired@.take(k as int)),
        decreases desired@.len() - k,
    {
        let want = desired[k];
        let ghost walk_children = children@;
        let ghost walk_ops = ops@;
        proof {
            assert(desired@.take(k + 1).drop_last() =~= desired@.take(k as int));
            assert(desired@.take(k + 1).last() == want);
        }
        proof {
            assert forall|j: int| 0 <= j < p implies children@[j] != want by {
                assert(children@.take(p as int)[j] == desired@.take(k as int)[j]);
                assert(desired@[j] != desired@[k as int]);
            }
        }
        if p < children.len() && children[p] == want {
            assert(walk_ops + Seq::<Placement>::empty() =~= walk_ops);
            p = p + 1;
        } else {
            let before = if p < children.len() {
                Some(children[p])
            } else {
                None
            };
            let op = Placement::InsertBefore { node: want, before };
            let ghost old_children = children@;
            let ghost old_ops = ops@;
            ops.push(op);
            match find_child(&children, want) {
                Some(q) => {
                    children.remove(q);
                },
                None => {},
            }
            let ghost rest = children@;
            children.insert(p, want);
            proof {
                assert(ops@.drop_last() =~= old_ops);
                // `rest` is the old children without `want`
                if old_children.contains(want) {
                    let q = choose|q: int| 0 <= q < old_children.len() && old_children[q] == want;
                    lemma_first_at(old_children, want, q);
                    assert(q > p);
                    assert(rest == old_children.remove(q));
                } else {
                    assert(rest == old_children);
                }
                assert(rest == without(old_children, want));
                assert(rest.no_duplicates()) by {
                    assert forall|a: int, b: int|
                        0 <= a < rest.len() && 0 <= b < rest.len() && a != b implies rest[a]
                        != rest[b] by {
                        if old_children.contains(want) {
                            let q = model::first_index(old_children, want);
                            let a2 = if a < q { a } else { a + 1 };
                            let b2 = if b < q { b } else { b + 1 };
                            assert(rest[a] == old_children[a2]);
                            assert(rest[b] == old_children[b2]);
                        }
                    }
                }
                assert(!rest.contains(want)) by {
                    if rest.contains(want) {
                        let a = choose|a: int| 0 <= a < rest.len() && rest[a] == want;
                        if old_children.contains(want) {
                            let q = model::first_index(old_children, want);
                            let a2 = if a < q { a } else { a + 1 };
                            assert(rest[a] == old_children[a2]);
                        }
                    }
                }
                assert(p <= rest.len());
                assert forall|j: int| 0 <= j < p implies rest[j] == old_children[j] by {
                    if old_children.contains(want) {
                        assert(model::first_index(old_children, want) > p);
                    }
                }
                match before {
                    Some(b) => {
                        assert(b == old_children[p as int]);
                        assert(rest[p as int] == b) by {
                            if old_children.contains(want) {
                                assert(model::first_index(old_children, want) > p);
                            }
                        }
                        lemma_first_at(rest, b, p as int);
                    },
                    None => {
                        assert(rest.insert(p as int, want) =~= rest.push(want));
                    },
                }
                assert(apply_placement(old_children, op) == children@);
                assert(ops@ =~= walk_ops + seq![op]);
                let c = children@;
                assert(c.no_duplicates()) by {
                    assert forall|a: int, b: int|
                        0 <= a < c.len() && 0 <= b < c.len() && a != b implies c[a] != c[b] by {
                        let a2 = if a < p { a } else { a - 1 };
                        let b2 = if b < p { b } else { b - 1 };
                        if a != p && b != p {
                            assert(c[a] == rest[a2]);
                            assert(c[b] == rest[b2]);
                        } else if a == p {
                            assert(c[b] == rest[b2]);
                        } else {
                            assert(c[a] == rest[a2]);
                        }
                    }
                }
                assert(c.take(p + 1) =~= desired@.take(k + 1)) by {
                    assert forall|j: int| 0 <= j < p implies c[j] == desired@[j] by {
                        assert(old_children.take(p as int)[j] == desired@.take(k as int)[j]);
                    }
                }
            }
            p = p + 1;
        }
        k = k + 1;
    }
    assert(desired@.take(k as int) =~= desired@);
    let ghost cw = children@;
    let ghost wops = ops@;
    while p < children.len()
        invariant
            children@.no_duplicates(),
            apply_placements(current@, ops@) == children@,
            p == desired@.len(),
            p <= children@.len(),
            children@.take(p as int) == desired@,
            cw == cursor_walk(current@, desired@).0,
            wops == cursor_walk(current@, desired@).1,
            children@.len() <= cw.len(),
            children@ == cw.take(p as int) + cw.skip(p + (cw.len() - children@.len())),
            ops@ == wops + removals(cw, p as int).take(cw.len() - children@.len()),
        decreases children@.len() - p,
    {
        let x = children[p];
        let ghost old_children = children@;
        let ghost old_ops = ops@;
        let ghost r = cw.len() - children@.len();
        ops.push(Placement::Remove(x));
        children.remove(p);
        proof {
            assert(x == cw[p + r]);
            assert(removals(cw, p as int)[r] == Placement::Remove(x));
            assert(ops@ =~= wops + removals(cw, p as int).take(r + 1));
            assert(children@ =~= cw.take(p as int) + cw.skip(p + r + 1));
            assert(ops@.drop_last() =~= old_ops);
            lemma_first_at(old_children, x, p as int);
            assert(apply_placement(old_children, Placement::Remove(x)) == children@);
            let c = children@;
            assert forall|a: int, b: int|
                0 <= a < c.len() && 0 <= b < c.len() && a != b implies c[a] != c[b] by {
                let a2 = if a < p { a } else { a + 1 };
                let b2 = if b < p { b } else { b + 1 };
                assert(c[a] == old_children[a2]);
                assert(c[b] == old_children[b2]);
            }
            assert(c.take(p as int) =~= old_children.take(p as int));
        }
    }
    assert(children@ =~= children@.take(p as int));
    assert(removals(cw, p as int).take(cw.len() - children@.len()) =~= removals(cw, p as int));
    ops
}

// ---------------------------------------------------------------------------
// Attributes and form-field properties
// ---------------------------------------------------------------------------

/// Some attribute of `attrs` has the name `name`.
pub open spec fn has_attr(attrs: Seq<Attr>, name: Seq<char>) -> bool {
    exists|k: int| 0 <= k < attrs.len() && (#[trigger] attrs[k]).name@ == name
}

/// The names of the attributes of `old` that `new` no longer carries, in
/// their order in `old`.
pub open spec fn stale_names(new: Seq<Attr>, old: Seq<Attr>) -> Seq<Seq<char>>
    decreases old.len(),
{
    if old.len() == 0 {
        Seq::empty()
    } else {
        let rest = stale_names(new, old.drop_last());
        if has_attr(new, old.last().name@) {
            rest
        } else {
            rest.push(old.last().name@)
        }
    }
}


/// Whether an attribute named `name` is present.
fn has_attribute(attrs: &[Attr], name: &str) -> (r: bool)
    ensures
        r == has_attr(attrs@, name@),
{
    let mut k: usize = 0;
    while k < attrs.len()
        invariant
            k <= attrs@.len(),
            forall|q: int| 0 <= q < k ==> (#[trigger] attrs@[q]).name@ != name@,
        decreases attrs@.len() - k,
    {
        if same_text(attrs[k].name, name) {
            return true;
        }
        k = k + 1;
    }
    false
}

/// Names of the attributes the previous render set that the new tree no
/// longer carries: the renderer removes them from the live element.
pub fn stale_attributes(new: &[Attr], old: &[Attr]) -> (r: Vec<&'static str>)
    ensures
        r@.len() == stale_names(new@, old@).len(),
        forall|k: int| 0 <= k < r@.len() ==> #[trigger] r@[k]@ == stale_names(new@, old@)[k],
{
    let mut r: Vec<&'static str> = Vec::new();
    let mut i: usize = 0;
    while i < old.len()
        invariant
            i <= old@.len(),
            r@.len() == stale_names(new@, old@.take(i as int)).len(),
            forall|k: int|
                0 <= k < r@.len() ==> #[trigger] r@[k]@ == stale_names(new@, old@.take(i as int))[k],
        decreases old@.len() - i,
    {
        assert(old@.take(i + 1).drop_last() =~= old@.take(i as int));
        assert(old@.take(i + 1).last() == old@[i as int]);
        if !has_attribute(new, old[i].name) {
            r.push(old[i].name);
        }
        i = i + 1;
    }
    assert(old@.take(old@.len() as int) =~= old@);
    r
}

/// The value of the first attribute named `name`, if any.
pub open spec fn first_attr_value(attrs: Seq<Attr>, name: Seq<char>) -> Option<Seq<char>>
    decreases attrs.len(),
{
    if attrs.len() == 0 {
        None
    } else if attrs[0].name@ == name {
        Some(attrs[0].value@)
    } else {
        first_attr_value(attrs.drop_first(), name)
    }
}

/// The `value` property a form field must be given: the first `value`
/// attribute of the new tree; the empty text when that attribute just
/// disappeared; nothing for a field that was never controlled.
pub open spec fn value_property(attrs: Seq<Attr>, old_attrs: Option<Seq<Attr>>) -> Option<
    Seq<char>,
> {
    match first_attr_value(attrs, "value"@) {
        Some(v) => Some(v),
        None => match old_attrs {
            Some(old) => if has_attr(old, "value"@) {
                Some(Seq::empty())
            } else {
                None
            },
            None => None,
        },
    }
}

/// The `checked` property a checkbox or radio must be given: checked when the
/// attribute is present, unchecked when it just disappeared, untouched when
/// it was never controlled.
pub open spec fn checked_property(attrs: Seq<Attr>, old_attrs: Option<Seq<Attr>>) -> Option<bool> {
    if has_attr(attrs, "checked"@) {
        Some(true)
    } else {
        match old_attrs {
            Some(old) => if has_attr(old, "checked"@) {
                Some(false)
            } else {
                None
            },
            None => None,
        }
    }
}

/// The first attribute named `name` is the one `first_attr_value` reads.
proof fn lemma_first_attr_value_at(attrs: Seq<Attr>, name: Seq<char>, k: int)
    requires
        0 <= k < attrs.len(),
        attrs[k].name@ == name,
        forall|j: int| 0 <= j < k ==> (#[trigger] attrs[j]).name@ != name,
    ensures
        first_attr_value(attrs, name) == Some(attrs[k].value@),
    decreases k,
{
    if k > 0 {
        let rest = attrs.drop_first();
        assert forall|j: int| 0 <= j < k - 1 implies (#[trigger] rest[j]).name@ != name by {
            assert(rest[j] == attrs[j + 1]);
        }
        assert(attrs[0].name@ != name);
        assert(rest[k - 1] == attrs[k]);
        lemma_first_attr_value_at(rest, name, k - 1);
    }
}

/// Whenever the new tree carries a `value` attribute, the `value` property is
/// written, and it is the first such attribute's value, whatever the previous
/// tree held (even the same value: the live field may have been edited since,
/// so it is set back to what the model says). Which property is written
/// depends on the previous tree only when the new tree has no `value`
/// attribute.
pub proof fn lemma_value_attribute_is_always_written(
    attrs: Seq<Attr>,
    k: int,
    old_attrs: Option<Seq<Attr>>,
    other_old: Option<Seq<Attr>>,
)
    requires
        0 <= k < attrs.len(),
        attrs[k].name@ == "value"@,
        forall|j: int| 0 <= j < k ==> (#[trigger] attrs[j]).name@ != "value"@,
    ensures
        value_property(attrs, old_attrs) == Some(attrs[k].value@),
        value_property(attrs, old_attrs) == value_property(attrs, other_old),
{
    lemma_first_attr_value_at(attrs, "value"@, k);
}

/// `first_attr_value` finds nothing exactly when no attribute has the name.
proof fn lemma_first_attr_value_none(attrs: Seq<Attr>, name: Seq<char>)
    ensures
        first_attr_value(attrs, name) is None <==> !has_attr(attrs, name),
    decreases attrs.len(),
{
    if attrs.len() > 0 {
        let rest = attrs.drop_first();
        lemma_first_attr_value_none(rest, name);
        if has_attr(rest, name) {
            let j = choose|j: int| 0 <= j < rest.len() && (#[trigger] rest[j]).name@ == name;
            assert(attrs[j + 1] == rest[j]);
        }
        if has_attr(attrs, name) && attrs[0].name@ != name {
            let j = choose|j: int| 0 <= j < attrs.len() && (#[trigger] attrs[j]).name@ == name;
            assert(rest[j - 1] == attrs[j]);
        }
    }
}

/// When the new tree carries no `value` attribute, the property is cleared
/// (written empty) exactly when the previous tree carried one, and left
/// alone otherwise.
pub proof fn lemma_removed_value_attribute_is_cleared(
    attrs: Seq<Attr>,
    old_attrs: Option<Seq<Attr>>,
)
    requires
        !has_attr(attrs, "value"@),
    ensures
        (old_attrs matches Some(old) && has_attr(old, "value"@)) ==> value_property(
            attrs,
            old_attrs,
        ) == Some(Seq::<char>::empty()),
        !(old_attrs matches Some(old) && has_attr(old, "value"@)) ==> value_property(
            attrs,
            old_attrs,
        ) is None,
{
    lemma_first_attr_value_none(attrs, "value"@);
}

/// Whenever the new tree carries a `checked` attribute, the field is checked,
/// whatever the previous tree held; when neither tree carries it, the field
/// is left alone; when only the previous tree did, it is unchecked.
pub proof fn lemma_checked_attribute_is_always_written(
    attrs: Seq<Attr>,
    old_attrs: Option<Seq<Attr>>,
)
    ensures
        has_attr(attrs, "checked"@) ==> checked_property(attrs, old_attrs) == Some(true),
        !has_attr(attrs, "checked"@) && old_attrs is None ==> checked_property(attrs, old_attrs)
            is None,
        !has_attr(attrs, "checked"@) && (old_attrs matches Some(old) && has_attr(old, "checked"@))
            ==> checked_property(attrs, old_attrs) == Some(false),
{
}

/// The attributes of the previous tree, when there was one.
pub open spec fn attrs_of(o: Option<&[Attr]>) -> Option<Seq<Attr>> {
    match o {
        Some(a) => Some(a@),
        None => None,
    }
}

/// The `value` property to write on a form field, if any.
pub fn value_to_sync(attrs: &[Attr], old_attrs: Option<&[Attr]>) -> (r: Option<String>)
    ensures
        match r {
            Some(s) => value_property(attrs@, attrs_of(old_attrs)) == Some(s@),
            None => value_property(attrs@, attrs_of(old_attrs)) is None,
        },
{
    let mut k: usize = 0;
    assert(attrs@.skip(0) =~= attrs@);
    while k < attrs.len()
        invariant
            k <= attrs@.len(),
            first_attr_value(attrs@, "value"@) == first_attr_value(attrs@.skip(k as int), "value"@),
        decreases attrs@.len() - k,
    {
        assert(attrs@.skip(k as int)[0] == attrs@[k as int]);
        if same_text(attrs[k].name, "value") {
            return Some(attrs[k].value.clone());
        }
        assert(attrs@.skip(k as int).drop_first() =~= attrs@.skip(k + 1));
        k = k + 1;
    }
    match old_attrs {
        Some(old) => {
            if has_attribute(old, "value") {
                Some(String::new())
            } else {
                None
            }
        },
        None => None,
    }
}

/// The `checked` property to write on a checkbox or radio, if any.
pub fn checked_to_sync(attrs: &[Attr], old_attrs: Option<&[Attr]>) -> (r: Option<bool>)
    ensures
        r == checked_property(attrs@, attrs_of(old_attrs)),
{
    if has_attribute(attrs, "checked") {
        Some(true)
    } else {
        match old_attrs {
            Some(old) => {
                if has_attribute(old, "checked") {
                    Some(false)
                } else {
                    None
                }
            },
            None => None,
        }
    }
}


} // verus!
