use vstd::prelude::*;

verus! {

/// How many of the workers are running.
pub open spec fn running_count(ws: Seq<bool>) -> nat
    decreases ws.len(),
{
    if ws.len() == 0 {
        0
    } else {
        running_count(ws.drop_last()) + if ws.last() { 1nat } else { 0nat }
    }
}

pub proof fn lemma_running_count_le(ws: Seq<bool>)
    ensures
        running_count(ws) <= ws.len(),
    decreases ws.len(),
{
    if ws.len() > 0 {
        lemma_running_count_le(ws.drop_last());
    }
}

/// What the pool does with the head of the queue.
#[derive(Debug, PartialEq, Eq, Structural, Clone, Copy)]
pub enum Dispatch {
    /// Nothing is queued.
    Idle,
    /// Run the head of the queue on the finished worker at this index.
    Reuse(usize),
    /// Run the head of the queue on a new worker, added at this index.
    Spawn(usize),
    /// Every worker is busy and the pool is full: the item stays queued.
    Wait,
}

/// The admission control of the bounded worker pool: a queue of at most
/// `max_messages` work items, drained by at most `max_workers` workers.
/// `workers[i]` tells whether worker `i` is still running its item.
pub struct WorkerPool {
    pub max_workers: usize,
    pub max_messages: usize,
    pub workers: Vec<bool>,
    pub queued: usize,
}

impl WorkerPool {
    /// The bounds hold: no more workers than allowed, no deeper queue.
    pub open spec fn wf(&self) -> bool {
        &&& self.max_workers >= 1
        &&& self.max_messages >= 1
        &&& self.workers@.len() <= self.max_workers
        &&& self.queued <= self.max_messages
    }

    /// An empty pool; a bound of zero is raised to one.
    pub fn new(max_workers: usize, max_messages: usize) -> (r: Self)
        ensures
            r.wf(),
            r.max_workers == if max_workers > 0 { max_workers } else { 1 },
            r.max_messages == if max_messages > 0 { max_messages } else { 1 },
            r.workers@.len() == 0,
            r.queued == 0,
    {
        WorkerPool {
            max_workers: if max_workers > 0 { max_workers } else { 1 },
            max_messages: if max_messages > 0 { max_messages } else { 1 },
            workers: Vec::new(),
            queued: 0,
        }
    }

    /// Queues one more work item if there is room. When there is none the
    /// item is refused and whoever accepts datagrams must wait.
    pub fn offer(&mut self) -> (r: bool)
        requires
            old(self).wf(),
        ensures
            final(self).wf(),
            final(self).workers == old(self).workers,
            final(self).max_workers == old(self).max_workers,
            final(self).max_messages == old(self).max_messages,
            r == (old(self).queued < old(self).max_messages),
            final(self).queued == if r { old(self).queued + 1 } else { old(self).queued as int },
    {
        if self.queued < self.max_messages {
            self.queued = self.queued + 1;
            true
        } else {
            false
        }
    }

    /// Starts the head of the queue, if any: on the first finished worker,
    /// else on a new worker while the pool is below its bound; otherwise it waits.
    pub fn dispatch(&mut self) -> (r: Dispatch)
        requires
            old(self).wf(),
        ensures
            final(self).wf(),
            final(self).max_workers == old(self).max_workers,
            final(self).max_messages == old(self).max_messages,
            ({
                let ws = old(self).workers@;
                let q = old(self).queued;
                if q == 0 {
                    r == Dispatch::Idle && *final(self) == *old(self)
                } else if exists|i: int| 0 <= i < ws.len() && !ws[i] {
                    &&& r is Reuse
                    &&& 0 <= r->Reuse_0 < ws.len()
                    &&& !ws[r->Reuse_0 as int]
                    &&& forall|j: int| 0 <= j < r->Reuse_0 ==> #[trigger] ws[j]
                    &&& final(self).workers@ == ws.update(r->Reuse_0 as int, true)
                    &&& final(self).queued == q - 1
                } else if ws.len() < old(self).max_workers {
                    &&& r == Dispatch::Spawn(ws.len() as usize)
                    &&& final(self).workers@ == ws.push(true)
                    &&& final(self).queued == q - 1
                } else {
                    r == Dispatch::Wait && *final(self) == *old(self)
                }
            }),
    {
        if self.queued == 0 {
            return Dispatch::Idle;
        }
        let mut i: usize = 0;
        while i < self.workers.len()
            invariant
                *self == *old(self),
                self.wf(),
                self.queued > 0,
                i <= self.workers@.len(),
                forall|j: int| 0 <= j < i ==> #[trigger] self.workers@[j],
            decreases self.workers@.len() - i,
        {
            if !self.workers[i] {
                self.workers.set(i, true);
                self.queued = self.queued - 1;
                return Dispatch::Reuse(i);
            }
            i = i + 1;
        }
        if self.workers.len() < self.max_workers {
            let at = self.workers.len();
            self.workers.push(true);
            self.queued = self.queued - 1;
            Dispatch::Spawn(at)
        } else {
            Dispatch::Wait
        }
    }

    /// Records that worker `i` finished its item.
    pub fn finished(&mut self, i: usize)
        requires
            old(self).wf(),
        ensures
            final(self).wf(),
            final(self).max_workers == old(self).max_workers,
            final(self).max_messages == old(self).max_messages,
            final(self).queued == old(self).queued,
            i < old(self).workers@.len() ==> final(self).workers@ == old(self).workers@.update(i as int, false),
            i >= old(self).workers@.len() ==> final(self).workers@ == old(self).workers@,
    {
        if i < self.workers.len() {
            self.workers.set(i, false);
        }
    }

    /// Housekeeping: drops the finished workers from the books and returns
    /// the former indices of those kept, in order.
    pub fn reap(&mut self) -> (kept: Vec<usize>)
        requires
            old(self).wf(),
        ensures
            final(self).wf(),
            final(self).max_workers == old(self).max_workers,
            final(self).max_messages == old(self).max_messages,
            final(self).queued == old(self).queued,
            final(self).workers@.len() == kept@.len(),
            forall|j: int| 0 <= j < final(self).workers@.len() ==> #[trigger] final(self).workers@[j],
            forall|j: int| 0 <= j < kept@.len() ==> #[trigger] kept@[j] < old(self).workers@.len()
                && old(self).workers@[kept@[j] as int],
            forall|j: int, k: int| 0 <= j < k < kept@.len() ==> #[trigger] kept@[j] < #[trigger] kept@[k],
            kept@.len() == running_count(old(self).workers@),
    {
        let ghost ws = self.workers@;
        let mut kept: Vec<usize> = Vec::new();
        let mut alive: Vec<bool> = Vec::new();
        let mut i: usize = 0;
        while i < self.workers.len()
            invariant
                self.workers@ == ws,
                i <= ws.len(),
                alive@.len() == kept@.len(),
                forall|j: int| 0 <= j < alive@.len() ==> #[trigger] alive@[j],
                forall|j: int| 0 <= j < kept@.len() ==> #[trigger] kept@[j] < i && ws[kept@[j] as int],
                forall|j: int, k: int| 0 <= j < k < kept@.len() ==> #[trigger] kept@[j] < #[trigger] kept@[k],
                kept@.len() == running_count(ws.take(i as int)),
            decreases ws.len() - i,
        {
            proof {
                assert(ws.take(i + 1).drop_last() =~= ws.take(i as int));
            }
            if self.workers[i] {
                kept.push(i);
                alive.push(true);
            }
            i = i + 1;
        }
        proof {
            assert(ws.take(i as int) =~= ws);
            lemma_running_count_le(ws);
        }
        self.workers = alive;
        kept
    }
}

/// No state that the pool reaches runs more items at once than it has
/// workers, nor queues more than its bound.
pub proof fn lemma_admission_bounds(p: WorkerPool)
    requires
        p.wf(),
    ensures
        running_count(p.workers@) <= p.max_workers,
        p.queued <= p.max_messages,
{
    lemma_running_count_le(p.workers@);
}

} // verus!
