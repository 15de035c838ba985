use vstd::prelude::*;

verus! {

/// The scheduling state of a thread.
#[derive(Clone, Copy, Debug, PartialEq, Eq, Structural)]
pub enum ThreadState {
    RUNNABLE,
    /// Interruptible sleep (I/O).
    ISLEEP,
    /// Uninterruptible sleep (waiting for an event).
    USLEEP,
    ZOMBIE,
}

/// A thread's user stack.
#[derive(Clone, Copy, Debug, PartialEq, Eq, Structural)]
pub struct ThreadStack {
    pub pointer: usize,
    pub base: usize,
    pub size: usize,
}

/// A thread of a process.
///
/// The owner is named by its process id; the queues a thread waits on are
/// named by handles, `None` when it waits on none.
#[derive(Clone, Copy, Debug, PartialEq, Eq, Structural)]
pub struct Thread {
    /// Thread id.
    pub tid: isize,
    /// Current state.
    pub state: ThreadState,
    /// Id of the owner process.
    pub owner: isize,
    /// User stack.
    pub stack: ThreadStack,
    /// Sleep queue the thread waits on.
    pub sleep_queue: Option<usize>,
    /// Whether the thread has run before.
    pub spawned: isize,
}

/// The threads `ts` with `owner` as their owner.
pub open spec fn owned_by(ts: Seq<Thread>, owner: isize) -> Seq<Thread> {
    Seq::new(ts.len(), |i: int| Thread { owner, ..ts[i] })
}

/// Makes `owner` the owner of every thread of `ts`.
pub fn set_owner(ts: &mut Vec<Thread>, owner: isize)
    ensures
        final(ts)@ == owned_by(old(ts)@, owner),
{
    let mut i: usize = 0;
    while i < ts.len()
        invariant
            i <= ts.len(),
            ts@.len() == old(ts)@.len(),
            forall|j: int| 0 <= j < i ==> #[trigger] ts@[j] == (Thread { owner, ..old(ts)@[j] }),
            forall|j: int| i <= j < ts@.len() ==> #[trigger] ts@[j] == old(ts)@[j],
        decreases ts.len() - i,
    {
        let mut t = ts[i];
        t.owner = owner;
        ts.set(i, t);
        i = i + 1;
    }
    assert(ts@ =~= owned_by(old(ts)@, owner));
}

impl Thread {
    /// The thread `tid` of process `owner`, runnable, with every other field
    /// zero.
    pub open spec fn spec_new(tid: isize, owner: isize) -> Thread {
        Thread {
            tid,
            state: ThreadState::RUNNABLE,
            owner,
            stack: ThreadStack { pointer: 0, base: 0, size: 0 },
            sleep_queue: None,
            spawned: 0,
        }
    }

    /// A new thread `tid` of process `owner`, runnable, with every other
    /// field zero.
    pub fn new(tid: isize, owner: isize) -> (t: Thread)
        ensures
            t == Thread::spec_new(tid, owner),
    {
        Thread {
            tid,
            state: ThreadState::RUNNABLE,
            owner,
            stack: ThreadStack { pointer: 0, base: 0, size: 0 },
            sleep_queue: None,
            spawned: 0,
        }
    }

    /// Marks the thread dead; returns 0.
    pub fn kill(&mut self) -> (r: isize)
        ensures
            r == 0,
            *final(self) == (Thread { state: ThreadState::ZOMBIE, ..*old(self) }),
    {
        self.state = ThreadState::ZOMBIE;
        0
    }
}

} // verus!
