//! Virtual process manager: process identities with monotonically
//! assigned, never-reused pids, a tick counter, and a table of forked
//! children kept for monitoring.

use vstd::prelude::*;

verus! {

/// One process identity.  The identity that starts a lineage owns the
/// pid counter for that lineage; every fork hands out the next pid and
/// the counter only ever grows, so pids are never reused.
pub struct Vpm {
    pub pid: u64,
    pub next_pid: u64,
    pub time: u64,
    pub children: Vec<Vpm>,
}

impl Vpm {
    /// Every recorded child got its pid from this counter after this
    /// identity did, so all pids in the table are distinct and ordered.
    pub open spec fn wf(self) -> bool {
        &&& self.pid < self.next_pid
        &&& forall|i: int|
            0 <= i < self.children@.len() ==> self.pid < (#[trigger] self.children@[i]).pid
                < self.next_pid
        &&& forall|i: int, j: int|
            0 <= i < j < self.children@.len() ==> self.children@[i].pid < self.children@[j].pid
    }

    /// Start a lineage: the first identity takes pid 1 and owns the
    /// counter from which every fork in the lineage draws.
    pub fn new() -> (r: Vpm)
        ensures
            r.wf(),
            r.pid == 1,
            r.next_pid == 2,
            r.time == 0,
            r.children@.len() == 0,
    {
        Vpm { pid: 1, next_pid: 2, time: 0, children: Vec::new() }
    }

    /// Produce a fresh identity under the next pid.  The child is not
    /// recorded in the table; the counter advances, so the pid can never
    /// be handed out again.
    pub fn fork(&mut self) -> (child: Vpm)
        requires
            old(self).wf(),
            old(self).next_pid < u64::MAX,
        ensures
            final(self).wf(),
            child.wf(),
            fork_post(*old(self), *final(self), child),
    {
        let child = Vpm {
            pid: self.next_pid,
            next_pid: self.next_pid + 1,
            time: 0,
            children: Vec::new(),
        };
        self.next_pid = self.next_pid + 1;
        child
    }

    /// Fork an identity for a unit of work that the caller runs on its
    /// own thread of control; the identity-scoping convention of the
    /// simulator, not real concurrency.
    pub fn execute(&mut self) -> (child: Vpm)
        requires
            old(self).wf(),
            old(self).next_pid < u64::MAX,
        ensures
            final(self).wf(),
            child.wf(),
            fork_post(*old(self), *final(self), child),
    {
        self.fork()
    }

    /// Fork an identity for independently scheduled work and record it
    /// in the children table for later monitoring.
    pub fn execute_child(&mut self) -> (child: Vpm)
        requires
            old(self).wf(),
            old(self).next_pid < u64::MAX,
        ensures
            final(self).wf(),
            child.wf(),
            child.pid == old(self).next_pid,
            child.next_pid == child.pid + 1,
            child.time == 0,
            child.children@.len() == 0,
            final(self).pid == old(self).pid,
            final(self).time == old(self).time,
            final(self).next_pid == old(self).next_pid + 1,
            final(self).children@.len() == old(self).children@.len() + 1,
            forall|i: int|
                0 <= i < old(self).children@.len() ==> final(self).children@[i] == old(
                    self,
                ).children@[i],
            final(self).children@.last().pid == child.pid,
    {
        let pid = self.next_pid;
        let recorded = Vpm { pid, next_pid: pid + 1, time: 0, children: Vec::new() };
        self.next_pid = pid + 1;
        self.children.push(recorded);
        Vpm { pid, next_pid: pid + 1, time: 0, children: Vec::new() }
    }

    /// One tick of the background counter; it saturates rather than wrap.
    pub fn tick(&mut self)
        ensures
            final(self).time as int == if old(self).time < u64::MAX {
                old(self).time + 1
            } else {
                old(self).time as int
            },
            final(self).pid == old(self).pid,
            final(self).next_pid == old(self).next_pid,
            final(self).children@ == old(self).children@,
            old(self).wf() ==> final(self).wf(),
    {
        if self.time < u64::MAX {
            self.time = self.time + 1;
        }
    }

    /// Snapshot for the process monitor: this identity first, then every
    /// recorded child, each with the shared tick counter's current value.
    pub fn process_table(&self) -> (r: Vec<(u64, u64)>)
        ensures
            r@.len() == 1 + self.children@.len(),
            r@[0] == (self.pid, self.time),
            forall|i: int|
                0 <= i < self.children@.len() ==> r@[i + 1] == (
                    (#[trigger] self.children@[i]).pid,
                    self.time,
                ),
    {
        let mut r: Vec<(u64, u64)> = Vec::new();
        r.push((self.pid, self.time));
        let mut i: usize = 0;
        while i < self.children.len()
            invariant
                i <= self.children@.len(),
                r@.len() == 1 + i,
                r@[0] == (self.pid, self.time),
                forall|k: int|
                    0 <= k < i ==> r@[k + 1] == ((#[trigger] self.children@[k]).pid, self.time),
            decreases self.children@.len() - i,
        {
            r.push((self.children[i].pid, self.time));
            i = i + 1;
        }
        r
    }
}

/// What `fork` (and `execute`) guarantee: the child takes the next pid
/// and the counter moves past it, while the parent's identity, clock and
/// children are untouched.
pub open spec fn fork_post(pre: Vpm, post: Vpm, child: Vpm) -> bool {
    &&& child.pid == pre.next_pid
    &&& child.next_pid == child.pid + 1
    &&& child.time == 0
    &&& child.children@.len() == 0
    &&& post.pid == pre.pid
    &&& post.time == pre.time
    &&& post.children@ == pre.children@
    &&& post.next_pid == pre.next_pid + 1
}

/// Pids are never reused: any two forks in a row hand out distinct,
/// strictly growing pids, and neither equals the parent's pid.
pub proof fn lemma_forked_pids_distinct(s0: Vpm, s1: Vpm, c1: Vpm, s2: Vpm, c2: Vpm)
    requires
        s0.wf(),
        fork_post(s0, s1, c1),
        fork_post(s1, s2, c2),
    ensures
        c1.pid != c2.pid,
        c1.pid < c2.pid,
        c1.pid != s0.pid,
        c2.pid != s0.pid,
{
}

} // verus!
