//! One exclusive resource and its coordinator state: an availability flag,
//! the id of the current holder, and a FIFO queue of waiting agent ids.
//! Requests are granted strictly in arrival order, and only the holder may
//! release; a release by anyone else is a programming fault surfaced as an
//! error.

use vstd::prelude::*;

verus! {

/// Why a release was refused.
#[derive(Clone, Copy, Debug, PartialEq, Eq, Structural)]
pub enum ReleaseError {
    /// The caller does not currently hold the resource.
    NotHolder,
}

/// A single exclusive unit, owned by its coordinator: at most one agent holds
/// it at any instant, and waiting requests are served first-in first-out.
#[derive(Debug, Clone)]
pub struct Resource {
    pub id: usize,
    pub available: bool,
    pub holder: Option<usize>,
    pub waiters: Vec<usize>,
}

impl Resource {
    /// The coordinator's internal invariant: the availability flag agrees
    /// with the holder record, and no agent is queued twice.
    pub open spec fn wf(self) -> bool {
        &&& (self.available <==> self.holder is None)
        &&& self.waiters@.no_duplicates()
    }

    /// The resource may be handed to `agent` right now: it is available and
    /// `agent`'s request heads the queue.
    pub open spec fn can_grant(self, agent: usize) -> bool {
        &&& self.available
        &&& self.waiters@.len() > 0
        &&& self.waiters@[0] == agent
    }

    /// A fresh, available resource with an empty wait queue.
    pub fn new(id: usize) -> (res: Resource)
        ensures
            res.id == id,
            res.available,
            res.holder is None,
            res.waiters@ == Seq::<usize>::empty(),
            res.wf(),
    {
        Resource { id, available: true, holder: None, waiters: Vec::new() }
    }

    /// Records `agent`'s request at the tail of the queue, preserving the
    /// arrival order of all earlier requests.
    pub fn enqueue(&mut self, agent: usize)
        requires
            old(self).wf(),
            !old(self).waiters@.contains(agent),
        ensures
            enqueued(*old(self), *final(self), agent),
            final(self).wf(),
    {
        self.waiters.push(agent);
        proof {
            assert forall|p: int, q: int|
                0 <= p < q < self.waiters@.len() implies self.waiters@[p] != self.waiters@[q] by {
                if q < self.waiters@.len() - 1 {
                    assert(old(self).waiters@[p] != old(self).waiters@[q]);
                } else {
                    assert(old(self).waiters@.contains(old(self).waiters@[p]));
                }
            }
        }
    }

    /// Whether the resource can be granted to `agent` right now.
    pub fn may_grant(&self, agent: usize) -> (b: bool)
        ensures
            b == self.can_grant(agent),
    {
        self.available && self.waiters.len() > 0 && self.waiters[0] == agent
    }

    /// Hands the resource to the head waiter `agent`: the request leaves the
    /// queue and `agent` becomes the exclusive holder.
    pub fn grant(&mut self, agent: usize)
        requires
            old(self).wf(),
            old(self).can_grant(agent),
        ensures
            granted(*old(self), *final(self), agent),
            final(self).wf(),
    {
        self.waiters.remove(0);
        self.available = false;
        self.holder = Some(agent);
        proof {
            assert(self.waiters@ =~= old(self).waiters@.drop_first());
            assert forall|p: int, q: int|
                0 <= p < q < self.waiters@.len() implies self.waiters@[p] != self.waiters@[q] by {
                assert(old(self).waiters@[p + 1] != old(self).waiters@[q + 1]);
            }
        }
    }

    /// Marks the resource available again. May be called only by the current
    /// holder; the wait queue is untouched, so the grant order is preserved.
    pub fn release(&mut self, agent: usize)
        requires
            old(self).wf(),
            old(self).holder == Some(agent),
        ensures
            released(*old(self), *final(self)),
            final(self).wf(),
    {
        self.available = true;
        self.holder = None;
    }

    /// The public release entry point: succeeds exactly when `agent` is the
    /// current holder; a release by anyone else is refused loudly and leaves
    /// the state untouched.
    pub fn try_release(&mut self, agent: usize) -> (res: Result<(), ReleaseError>)
        requires
            old(self).wf(),
        ensures
            final(self).wf(),
            old(self).holder == Some(agent) ==> res is Ok && released(*old(self), *final(self)),
            old(self).holder != Some(agent) ==> res == Result::<(), ReleaseError>::Err(
                ReleaseError::NotHolder,
            ) && *final(self) == *old(self),
    {
        let is_holder = match self.holder {
            Some(h) => h == agent,
            None => false,
        };
        if is_holder {
            self.release(agent);
            Ok(())
        } else {
            Err(ReleaseError::NotHolder)
        }
    }
}

/// `post` is `pre` with `agent`'s request appended at the tail.
pub open spec fn enqueued(pre: Resource, post: Resource, agent: usize) -> bool {
    &&& post.id == pre.id
    &&& post.available == pre.available
    &&& post.holder == pre.holder
    &&& post.waiters@ == pre.waiters@.push(agent)
}

/// `post` is `pre` after granting the head request to `agent`.
pub open spec fn granted(pre: Resource, post: Resource, agent: usize) -> bool {
    &&& post.id == pre.id
    &&& !post.available
    &&& post.holder == Some(agent)
    &&& post.waiters@ == pre.waiters@.drop_first()
}

/// `post` is `pre` after the holder let go; waiting requests keep their order.
pub open spec fn released(pre: Resource, post: Resource) -> bool {
    &&& post.id == pre.id
    &&& post.available
    &&& post.holder is None
    &&& post.waiters@ == pre.waiters@
}

/// FIFO fairness law: a grant takes only the head of the wait queue. So if
/// agent `a`'s request (at position `i`) was enqueued strictly before agent
/// `b`'s (at position `j`), then `b` is never the one granted while `a` still
/// waits, and whenever `a` is not the grantee both requests survive with `a`
/// still ahead of `b`.
pub proof fn lemma_fifo_order(pre: Resource, post: Resource, g: usize, i: int, j: int)
    requires
        pre.wf(),
        pre.can_grant(g),
        granted(pre, post, g),
        0 <= i < j < pre.waiters@.len(),
    ensures
        pre.waiters@[j] != g,
        i == 0 ==> pre.waiters@[i] == g,
        i >= 1 ==> {
            &&& post.waiters@[i - 1] == pre.waiters@[i]
            &&& post.waiters@[j - 1] == pre.waiters@[j]
        },
{
    assert(pre.waiters@[0] == g);
    assert(pre.waiters@[j] != pre.waiters@[0]);
}

} // verus!
