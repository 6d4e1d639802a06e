//! The runtime's message queue and frame flag: messages wait for the next
//! animation frame, pushing a message requests a frame only when none is
//! pending, and a frame takes every waiting message, in arrival order.

use std::collections::VecDeque;

use vstd::prelude::*;

verus! {

/// The abstract state of the queue: the waiting messages, oldest first, and
/// whether a frame has been requested and has not run yet.
pub struct FrameState<T> {
    pub pending: Seq<T>,
    pub scheduled: bool,
}

/// The state after a message arrives, and whether a frame must be requested.
pub open spec fn after_push<T>(st: FrameState<T>, msg: T) -> (FrameState<T>, bool) {
    (FrameState { pending: st.pending.push(msg), scheduled: true }, !st.scheduled)
}

/// The state after messages arrive one by one, and how many frames they
/// request.
pub open spec fn after_pushes<T>(st: FrameState<T>, msgs: Seq<T>) -> (FrameState<T>, nat)
    decreases msgs.len(),
{
    if msgs.len() == 0 {
        (st, 0)
    } else {
        let (before, n) = after_pushes(st, msgs.drop_last());
        let (after, request) = after_push(before, msgs.last());
        (after, if request {
            n + 1
        } else {
            n
        })
    }
}

/// However many messages arrive between two frames, at most one frame is
/// requested (exactly one when none was pending), and every message waits
/// in arrival order.
pub proof fn lemma_one_frame_per_burst<T>(st: FrameState<T>, msgs: Seq<T>)
    ensures
        after_pushes(st, msgs).0.pending == st.pending + msgs,
        after_pushes(st, msgs).1 == (if msgs.len() > 0 && !st.scheduled {
            1nat
        } else {
            0nat
        }),
        msgs.len() > 0 ==> after_pushes(st, msgs).0.scheduled,
        msgs.len() == 0 ==> after_pushes(st, msgs).0 == st,
    decreases msgs.len(),
{
    if msgs.len() > 0 {
        lemma_one_frame_per_burst(st, msgs.drop_last());
        assert(st.pending + msgs.drop_last() + seq![msgs.last()] =~= st.pending + msgs);
        assert((st.pending + msgs.drop_last()).push(msgs.last()) =~= st.pending + msgs);
    }
}

/// Messages waiting for the next frame, and the frame flag.
pub struct FrameQueue<T> {
    pending: VecDeque<T>,
    scheduled: bool,
}

impl<T> FrameQueue<T> {
    /// The abstract state of the queue.
    pub closed spec fn view(&self) -> FrameState<T> {
        FrameState { pending: self.pending@, scheduled: self.scheduled }
    }

    /// No message waits and no frame is requested.
    pub fn new() -> (r: Self)
        ensures
            r@.pending == Seq::<T>::empty(),
            !r@.scheduled,
    {
        FrameQueue { pending: VecDeque::new(), scheduled: false }
    }

    /// Enqueue a message; returns whether the caller must request an
    /// animation frame (it must not when one is already pending).
    pub fn push(&mut self, msg: T) -> (request: bool)
        ensures
            (final(self)@, request) == after_push(old(self)@, msg),
    {
        self.pending.push_back(msg);
        let request = !self.scheduled;
        self.scheduled = true;
        request
    }

    /// Start a frame: clear the frame flag and take every waiting message,
    /// oldest first.
    pub fn take_frame(&mut self) -> (msgs: Vec<T>)
        ensures
            msgs@ == old(self)@.pending,
            final(self)@.pending == Seq::<T>::empty(),
            !final(self)@.scheduled,
    {
        self.scheduled = false;
        let mut msgs: Vec<T> = Vec::new();
        let ghost all = self.pending@;
        while self.pending.len() > 0
            invariant
                msgs@ + self.pending@ == all,
                !self.scheduled,
            decreases self.pending@.len(),
        {
            let ghost before = self.pending@;
            match self.pending.pop_front() {
                Some(m) => {
                    msgs.push(m);
                    assert(msgs@ + self.pending@ =~= all) by {
                        assert(before =~= seq![m] + self.pending@);
                        assert(msgs@ + self.pending@ =~= (msgs@.drop_last() + seq![m]) + self.pending@);
                    }
                },
                None => {},
            }
        }
        assert(msgs@ =~= all);
        msgs
    }
}

} // verus!
