//! The named intervals the runtime keeps alive (`Command::Every` /
//! `Command::Cancel`), each tagged with the generation its task was spawned
//! under.
//!
//! Subscribing an id that is already active is a no-op, so re-issuing a
//! subscription never doubles the tick rate. Every new subscription gets a
//! generation that was never handed out before, so a task whose subscription
//! was cancelled (and possibly immediately replaced) wakes to a different
//! generation and stops. Cancelling an id that nothing holds is a no-op.

use vstd::prelude::*;

use crate::text::same_text;

verus! {

/// The abstract state of the interval table: the active ids with their
/// generations, and the last generation ever handed out.
pub struct SubscriptionState {
    pub active: Map<Seq<char>, u64>,
    pub last_generation: u64,
}

/// Every active generation was handed out already.
pub open spec fn state_wf(st: SubscriptionState) -> bool {
    forall|id: Seq<char>| #[trigger] st.active.contains_key(id) ==> st.active[id] <= st.last_generation
}

/// The state after subscribing `id`, with the generation handed out (none
/// when `id` was already active).
pub open spec fn after_subscribe(st: SubscriptionState, id: Seq<char>) -> (SubscriptionState, Option<
    u64,
>) {
    if st.active.contains_key(id) {
        (st, None)
    } else {
        let g = (st.last_generation + 1) as u64;
        (SubscriptionState { active: st.active.insert(id, g), last_generation: g }, Some(g))
    }
}

/// The state after cancelling `id` (unchanged when `id` is not active).
pub open spec fn after_cancel(st: SubscriptionState, id: Seq<char>) -> SubscriptionState {
    SubscriptionState { active: st.active.remove(id), last_generation: st.last_generation }
}

/// A task spawned for `id` under generation `g` is still the live one.
pub open spec fn is_live(st: SubscriptionState, id: Seq<char>, g: u64) -> bool {
    st.active.contains_key(id) && st.active[id] == g
}

/// The active intervals, keyed by id.
pub struct Subscriptions {
    entries: Vec<(&'static str, u64)>,
    last_generation: u64,
}

/// The map that a list of entries with distinct ids describes.
pub open spec fn entries_map(entries: Seq<(&'static str, u64)>) -> Map<Seq<char>, u64>
    decreases entries.len(),
{
    if entries.len() == 0 {
        Map::empty()
    } else {
        entries_map(entries.drop_last()).insert(entries.last().0@, entries.last().1)
    }
}

proof fn lemma_entries_map(entries: Seq<(&'static str, u64)>)
    ensures
        forall|id: Seq<char>|
            #[trigger] entries_map(entries).contains_key(id) <==> exists|k: int|
                0 <= k < entries.len() && entries[k].0@ == id,
        forall|k: int|
            0 <= k < entries.len() && (forall|k2: int|
                0 <= k2 < entries.len() && k2 != k ==> entries[k2].0@ != entries[k].0@)
                ==> #[trigger] entries_map(entries)[entries[k].0@] == entries[k].1,
    decreases entries.len(),
{
    if entries.len() > 0 {
        let init = entries.drop_last();
        lemma_entries_map(init);
        assert forall|id: Seq<char>|
            #[trigger] entries_map(entries).contains_key(id) <==> exists|k: int|
                0 <= k < entries.len() && entries[k].0@ == id by {
            if entries_map(entries).contains_key(id) && id != entries.last().0@ {
                assert(entries_map(init).contains_key(id));
                let k = choose|k: int| 0 <= k < init.len() && init[k].0@ == id;
                assert(entries[k] == init[k]);
            }
            if exists|k: int| 0 <= k < entries.len() && entries[k].0@ == id {
                let k = choose|k: int| 0 <= k < entries.len() && entries[k].0@ == id;
                if k < init.len() {
                    assert(init[k] == entries[k]);
                    assert(entries_map(init).contains_key(id));
                }
            }
        }
        assert forall|k: int|
            0 <= k < entries.len() && (forall|k2: int|
                0 <= k2 < entries.len() && k2 != k ==> entries[k2].0@ != entries[k].0@)
                implies #[trigger] entries_map(entries)[entries[k].0@] == entries[k].1 by {
            if k < init.len() {
                assert(init[k] == entries[k]);
                assert forall|k2: int| 0 <= k2 < init.len() && k2 != k implies init[k2].0@
                    != init[k].0@ by {
                    assert(init[k2] == entries[k2]);
                }
                assert(entries[entries.len() - 1].0@ != entries[k].0@);
                assert(entries_map(init)[init[k].0@] == init[k].1);
            }
        }
    }
}


impl Subscriptions {
    /// The abstract state of the table.
    pub closed spec fn view(&self) -> SubscriptionState {
        SubscriptionState {
            active: entries_map(self.entries@),
            last_generation: self.last_generation,
        }
    }

    /// Ids are distinct and no entry is newer than the last generation.
    pub closed spec fn wf(&self) -> bool {
        &&& forall|a: int, b: int|
            0 <= a < self.entries@.len() && 0 <= b < self.entries@.len() && a != b
                ==> self.entries@[a].0@ != self.entries@[b].0@
        &&& forall|a: int|
            0 <= a < self.entries@.len() ==> #[trigger] self.entries@[a].1 <= self.last_generation
    }

    proof fn lemma_view(&self)
        requires
            self.wf(),
        ensures
            state_wf(self@),
            forall|a: int|
                0 <= a < self.entries@.len() ==> #[trigger] self@.active[self.entries@[a].0@]
                    == self.entries@[a].1,
            forall|id: Seq<char>|
                #[trigger] self@.active.contains_key(id) <==> exists|a: int|
                    0 <= a < self.entries@.len() && self.entries@[a].0@ == id,
    {
        lemma_entries_map(self.entries@);
        assert forall|id: Seq<char>| #[trigger] self@.active.contains_key(id) implies self@.active[id]
            <= self@.last_generation by {
            let a = choose|a: int| 0 <= a < self.entries@.len() && self.entries@[a].0@ == id;
            assert(self.entries@[a].1 <= self.last_generation);
        }
    }

    /// No interval is active, and no generation was handed out yet.
    pub fn new() -> (r: Self)
        ensures
            r.wf(),
            r@.active == Map::<Seq<char>, u64>::empty(),
            r@.last_generation == 0,
    {
        Subscriptions { entries: Vec::new(), last_generation: 0 }
    }

    fn find(&self, id: &str) -> (r: Option<usize>)
        requires
            self.wf(),
        ensures
            match r {
                Some(a) => a < self.entries@.len() && self.entries@[a as int].0@ == id@,
                None => forall|a: int|
                    0 <= a < self.entries@.len() ==> self.entries@[a].0@ != id@,
            },
    {
        let mut a: usize = 0;
        while a < self.entries.len()
            invariant
                a <= self.entries@.len(),
                forall|k: int| 0 <= k < a ==> self.entries@[k].0@ != id@,
            decreases self.entries@.len() - a,
        {
            if same_text(self.entries[a].0, id) {
                return Some(a);
            }
            a = a + 1;
        }
        None
    }

    /// Whether an interval holds `id`.
    pub fn is_active(&self, id: &str) -> (r: bool)
        requires
            self.wf(),
        ensures
            r == self@.active.contains_key(id@),
    {
        proof {
            self.lemma_view();
        }
        self.find(id).is_some()
    }

    /// Whether a task spawned for `id` under `generation` is still the live
    /// one; a task that is not stops.
    pub fn is_live(&self, id: &str, generation: u64) -> (r: bool)
        requires
            self.wf(),
        ensures
            r == is_live(self@, id@, generation),
    {
        proof {
            self.lemma_view();
        }
        match self.find(id) {
            Some(a) => self.entries[a].1 == generation,
            None => false,
        }
    }

    /// Whether a fresh generation can still be handed out.
    pub fn can_subscribe(&self) -> (r: bool)
        ensures
            r == (self@.last_generation < u64::MAX),
    {
        self.last_generation < u64::MAX
    }

    /// Subscribe `id`: a no-op returning `None` when it is already active,
    /// otherwise the fresh generation its task must carry.
    pub fn subscribe(&mut self, id: &'static str) -> (r: Option<u64>)
        requires
            old(self).wf(),
            old(self)@.active.contains_key(id@) || old(self)@.last_generation < u64::MAX,
        ensures
            final(self).wf(),
            (final(self)@, r) == after_subscribe(old(self)@, id@),
    {
        proof {
            self.lemma_view();
        }
        if self.find(id).is_some() {
            return None;
        }
        let g = self.last_generation + 1;
        let ghost before = self.entries@;
        self.entries.push((id, g));
        self.last_generation = g;
        proof {
            let e = self.entries@;
            assert(e.drop_last() =~= before);
            assert(e.last() == (id, g));
            assert(self@.active =~= old(self)@.active.insert(id@, g));
        }
        Some(g)
    }

    /// Cancel the interval that holds `id`; a no-op when none does.
    pub fn cancel(&mut self, id: &str)
        requires
            old(self).wf(),
        ensures
            final(self).wf(),
            final(self)@ == after_cancel(old(self)@, id@),
    {
        proof {
            self.lemma_view();
        }
        match self.find(id) {
            Some(a) => {
                let ghost before = self.entries@;
                self.entries.remove(a);
                proof {
                    let e = self.entries@;
                    assert(e == before.remove(a as int));
                    assert forall|x: int, y: int|
                        0 <= x < e.len() && 0 <= y < e.len() && x != y implies e[x].0@
                        != e[y].0@ by {
                        let x2 = if x < a { x } else { x + 1 };
                        let y2 = if y < a { y } else { y + 1 };
                        assert(e[x] == before[x2]);
                        assert(e[y] == before[y2]);
                    }
                    assert forall|x: int| 0 <= x < e.len() implies #[trigger] e[x].1
                        <= self.last_generation by {
                        let x2 = if x < a { x } else { x + 1 };
                        assert(e[x] == before[x2]);
                    }
                    lemma_entries_map(e);
                    lemma_entries_map(before);
                    assert forall|k: Seq<char>| #[trigger] self@.active.contains_key(k)
                        <==> old(self)@.active.remove(id@).contains_key(k) by {
                        if self@.active.contains_key(k) {
                            let x = choose|x: int| 0 <= x < e.len() && e[x].0@ == k;
                            let x2 = if x < a { x } else { x + 1 };
                            assert(e[x] == before[x2]);
                        }
                        if old(self)@.active.remove(id@).contains_key(k) {
                            let x = choose|x: int| 0 <= x < before.len() && before[x].0@ == k;
                            if x < a {
                                assert(e[x] == before[x]);
                            } else {
                                assert(x != a);
                                assert(e[x - 1] == before[x]);
                            }
                        }
                    }
                    assert forall|k: Seq<char>| #[trigger] self@.active.contains_key(k) implies
                        self@.active[k] == old(self)@.active.remove(id@)[k] by {
                        let x = choose|x: int| 0 <= x < e.len() && e[x].0@ == k;
                        let x2 = if x < a { x } else { x + 1 };
                        assert(e[x] == before[x2]);
                        assert(e[x].1 == self@.active[e[x].0@]);
                        assert(before[x2].1 == old(self)@.active[before[x2].0@]);
                    }
                    assert(self@.active =~= old(self)@.active.remove(id@));
                }
            },
            None => {
                proof {
                    assert(!old(self)@.active.contains_key(id@));
                    assert(old(self)@.active.remove(id@) =~= old(self)@.active);
                }
            },
        }
    }
}

/// Subscribing an id that is already active changes nothing and hands out no
/// generation: re-issuing a subscription never doubles the tick rate.
pub proof fn lemma_duplicate_subscribe_is_noop(st: SubscriptionState, id: Seq<char>)
    requires
        st.active.contains_key(id),
    ensures
        after_subscribe(st, id) == (st, None::<u64>),
{
}

/// Cancelling an id that nothing holds changes nothing.
pub proof fn lemma_cancel_inactive_is_noop(st: SubscriptionState, id: Seq<char>)
    requires
        !st.active.contains_key(id),
    ensures
        after_cancel(st, id) == st,
{
    assert(st.active.remove(id) =~= st.active);
}

/// A fresh subscription's generation is newer than every generation handed
/// out before, and it is the live one for its id.
pub proof fn lemma_subscribe_is_fresh(st: SubscriptionState, id: Seq<char>)
    requires
        state_wf(st),
        !st.active.contains_key(id),
        st.last_generation < u64::MAX,
    ensures
        after_subscribe(st, id).1 matches Some(g) && g > st.last_generation && is_live(
            after_subscribe(st, id).0,
            id,
            g,
        ),
        state_wf(after_subscribe(st, id).0),
{
}

/// A generation that is no longer live never becomes live again, whatever is
/// subscribed or cancelled afterwards: a stale task stops even when its id
/// was cancelled and immediately subscribed again.
pub proof fn lemma_retired_generation_stays_retired(
    st: SubscriptionState,
    id: Seq<char>,
    g: u64,
    other: Seq<char>,
)
    requires
        state_wf(st),
        g <= st.last_generation,
        !is_live(st, id, g),
        st.last_generation < u64::MAX,
    ensures
        !is_live(after_subscribe(st, other).0, id, g),
        !is_live(after_cancel(st, other), id, g),
        state_wf(after_cancel(st, other)),
{
}

/// Subscribing one id leaves every other id exactly as it was: an interval
/// that was active keeps its generation (its task stays live), an id that was
/// not active stays inactive, and the subscribed id is active afterwards.
/// The ids active after the call are those active before, plus `id`.
pub proof fn lemma_subscribe_keeps_other_ids(st: SubscriptionState, id: Seq<char>, other: Seq<char>)
    requires
        other != id,
    ensures
        after_subscribe(st, id).0.active.dom() == st.active.dom().insert(id),
        after_subscribe(st, id).0.active.contains_key(other) == st.active.contains_key(other),
        st.active.contains_key(other) ==> after_subscribe(st, id).0.active[other]
            == st.active[other],
        forall|g: u64| is_live(after_subscribe(st, id).0, other, g) == is_live(st, other, g),
{
    if st.active.contains_key(id) {
        assert(st.active.dom().insert(id) =~= st.active.dom());
    } else {
        assert(after_subscribe(st, id).0.active.dom() =~= st.active.dom().insert(id));
    }
}

/// Cancelling one id leaves every other id exactly as it was, and the
/// cancelled id is inactive afterwards: the ids active after the call are
/// those active before, minus `id`.
pub proof fn lemma_cancel_keeps_other_ids(st: SubscriptionState, id: Seq<char>, other: Seq<char>)
    requires
        other != id,
    ensures
        after_cancel(st, id).active.dom() == st.active.dom().remove(id),
        after_cancel(st, id).active.contains_key(other) == st.active.contains_key(other),
        st.active.contains_key(other) ==> after_cancel(st, id).active[other] == st.active[other],
        forall|g: u64| is_live(after_cancel(st, id), other, g) == is_live(st, other, g),
        forall|g: u64| !is_live(after_cancel(st, id), id, g),
{
    assert(after_cancel(st, id).active.dom() =~= st.active.dom().remove(id));
}

/// Cancelling a live interval and subscribing its id again retires the old
/// task's generation and hands out a new one.
pub proof fn lemma_cancel_then_resubscribe(st: SubscriptionState, id: Seq<char>, g: u64)
    requires
        state_wf(st),
        is_live(st, id, g),
        st.last_generation < u64::MAX,
    ensures
        after_subscribe(after_cancel(st, id), id).1 matches Some(g2) && g2 != g && is_live(
            after_subscribe(after_cancel(st, id), id).0,
            id,
            g2,
        ) && !is_live(after_subscribe(after_cancel(st, id), id).0, id, g),
{
}

/// Subscribing an inactive id, cancelling it while its task sleeps, and
/// subscribing it again hands out a generation never issued before: the first
/// task finds its generation dead on waking and stops, and only the new
/// interval ticks. (Two fresh generations must still fit in a `u64`.)
pub proof fn lemma_subscribe_cancel_resubscribe(st: SubscriptionState, id: Seq<char>)
    requires
        state_wf(st),
        !st.active.contains_key(id),
        st.last_generation < u64::MAX - 1,
    ensures
        ({
            let (s1, first) = after_subscribe(st, id);
            let (s3, second) = after_subscribe(after_cancel(s1, id), id);
            &&& first matches Some(g)
            &&& second matches Some(g2)
            &&& g > st.last_generation
            &&& g2 > g
            &&& is_live(s1, id, g)
            &&& !is_live(s3, id, g)
            &&& is_live(s3, id, g2)
        }),
{
    let (s1, first) = after_subscribe(st, id);
    assert(!after_cancel(s1, id).active.contains_key(id));
}

} // verus!
