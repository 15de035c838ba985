use vstd::prelude::*;

use crate::proc::{ForkOutcome, Kernel};
use crate::vm_space::{count_anon, count_object, handles_in};
use crate::process::{first_free_from, Process, FDS_COUNT, PID_MAX};
use crate::thread::{owned_by, Thread, ThreadState};

verus! {

/// A thread, named by the id of its process and its own id.
#[derive(Clone, Copy, Debug, PartialEq, Eq, Structural)]
pub struct ThreadRef {
    pub pid: isize,
    pub tid: isize,
}

/// The scheduler: the queue of threads ready to run, in the order they
/// run; the sleep queues, by handle; the thread running; and whether the
/// processor idles.
pub struct Scheduler {
    pub ready: Vec<ThreadRef>,
    pub queues: Vec<Vec<ThreadRef>>,
    pub current: Option<ThreadRef>,
    pub kidle: isize,
}

/// The ready queue `schedule` picks from: the queue, with the running
/// thread put back at its end unless the processor idled.
pub open spec fn ready_before_pick(ready: Seq<ThreadRef>, current: Option<ThreadRef>, kidle: isize) -> Seq<
    ThreadRef,
> {
    if kidle == 0 {
        ready.push(current.unwrap())
    } else {
        ready
    }
}

/// What `schedule` decides.
#[derive(Clone, Copy, Debug, PartialEq, Eq, Structural)]
pub enum SchedAction {
    /// No thread is ready: the processor idles.
    Idle,
    /// Run this thread, which has run before: switch to it.
    Switch(ThreadRef),
    /// Run this thread for the first time: start it.
    Spawn(ThreadRef),
}

impl Scheduler {
    /// A scheduler with no thread ready, `nqueues` empty sleep queues, no
    /// thread running and the processor busy.
    pub fn new(nqueues: usize) -> (s: Scheduler)
        ensures
            s.ready@.len() == 0,
            s.queues@.len() == nqueues,
            forall|q: int| 0 <= q < nqueues ==> (#[trigger] s.queues@[q])@.len() == 0,
            s.current is None,
            s.kidle == 0,
    {
        let mut queues: Vec<Vec<ThreadRef>> = Vec::new();
        let mut i: usize = 0;
        while i < nqueues
            invariant
                i <= nqueues,
                queues@.len() == i,
                forall|q: int| 0 <= q < i ==> (#[trigger] queues@[q])@.len() == 0,
            decreases nqueues - i,
        {
            queues.push(Vec::new());
            i = i + 1;
        }
        Scheduler { ready: Vec::new(), queues, current: None, kidle: 0 }
    }

    /// Makes thread `t` ready: it joins the end of the ready queue.
    pub fn sched_thread_ready(&mut self, t: ThreadRef)
        ensures
            final(self).ready@ == old(self).ready@.push(t),
            final(self).queues@ == old(self).queues@,
            final(self).current == old(self).current,
            final(self).kidle == old(self).kidle,
    {
        self.ready.push(t);
    }

    /// Marks the processor idle.
    pub fn kernel_idle(&mut self)
        ensures
            final(self).ready@ == old(self).ready@,
            final(self).queues@ == old(self).queues@,
            final(self).current == old(self).current,
            final(self).kidle == 1,
    {
        self.kidle = 1;
    }

    /// Picks the next thread to run, on a timer tick.
    ///
    /// Unless the processor idled, the running thread goes back to the end
    /// of the ready queue. With no thread ready the processor idles;
    /// otherwise the first ready thread leaves the queue and runs, `spawned`
    /// telling whether it has run before. Returns the thread picked, if any.
    pub fn schedule(&mut self) -> (r: Option<ThreadRef>)
        requires
            old(self).kidle == 0 ==> old(self).current is Some,
        ensures
            ({
                let q = ready_before_pick(old(self).ready@, old(self).current, old(self).kidle);
                &&& final(self).queues@ == old(self).queues@
                &&& q.len() == 0 ==> r is None && final(self).ready@ == q && final(self).kidle == 1
                    && final(self).current == old(self).current
                &&& q.len() > 0 ==> r == Some(q[0]) && final(self).ready@ == q.drop_first()
                    && final(self).kidle == 0 && final(self).current == Some(q[0])
            }),
    {
        if self.kidle == 0 {
            let c = self.current.unwrap();
            self.sched_thread_ready(c);
        }
        self.kidle = 0;
        if self.ready.len() == 0 {
            self.kernel_idle();
            return None;
        }
        let t = self.ready.remove(0);
        self.current = Some(t);
        proof {
            assert(self.ready@ =~= ready_before_pick(old(self).ready@, old(self).current, old(self).kidle).drop_first());
        }
        Some(t)
    }

    /// Puts the running thread `thread` to sleep on queue `q`: it joins the
    /// end of the queue and sleeps interruptibly there.
    pub fn thread_queue_sleep(&mut self, q: usize, thread: &mut Thread)
        requires
            q < old(self).queues.len(),
            old(self).current is Some,
        ensures
            final(self).queues@.len() == old(self).queues@.len(),
            forall|j: int|
                0 <= j < old(self).queues@.len() && j != q ==> #[trigger] final(self).queues@[j]
                    == old(self).queues@[j],
            final(self).queues@[q as int]@ == old(self).queues@[q as int]@.push(old(self).current.unwrap()),
            final(self).ready@ == old(self).ready@,
            final(self).current == old(self).current,
            final(self).kidle == old(self).kidle,
            *final(thread) == (Thread {
                sleep_queue: Some(q),
                state: ThreadState::ISLEEP,
                ..*old(thread)
            }),
    {
        let c = self.current.unwrap();
        let mut w: Vec<ThreadRef> = Vec::new();
        std::mem::swap(&mut w, &mut self.queues[q]);
        w.push(c);
        self.queues.set(q, w);
        thread.sleep_queue = Some(q);
        thread.state = ThreadState::ISLEEP;
    }

    /// Wakes every thread sleeping on queue `q`: they join the end of the
    /// ready queue in the order they went to sleep, and the sleep queue is
    /// left empty; returns 0. -1 when there is no queue `q`.
    pub fn thread_queue_wakeup(&mut self, q: usize) -> (r: isize)
        ensures
            q >= old(self).queues.len() ==> r == -1 && final(self).ready@ == old(self).ready@
                && final(self).queues@ == old(self).queues@,
            q < old(self).queues.len() ==> r == 0 && final(self).ready@ == old(self).ready@
                + old(self).queues@[q as int]@ && final(self).queues@.len() == old(self).queues@.len()
                && final(self).queues@[q as int]@.len() == 0 && forall|j: int|
                0 <= j < old(self).queues@.len() && j != q ==> #[trigger] final(self).queues@[j]
                    == old(self).queues@[j],
            final(self).current == old(self).current,
            final(self).kidle == old(self).kidle,
    {
        if q >= self.queues.len() {
            return -1;
        }
        let mut w: Vec<ThreadRef> = Vec::new();
        std::mem::swap(&mut w, &mut self.queues[q]);
        let ghost r0 = self.ready@;
        let mut i: usize = 0;
        while i < w.len()
            invariant
                i <= w.len(),
                self.ready@ == r0 + w@.take(i as int),
                self.queues@.len() == old(self).queues@.len(),
                self.queues@[q as int]@.len() == 0,
                forall|j: int|
                    0 <= j < old(self).queues@.len() && j != q ==> #[trigger] self.queues@[j]
                        == old(self).queues@[j],
                self.current == old(self).current,
                self.kidle == old(self).kidle,
            decreases w.len() - i,
        {
            proof {
                assert(w@.take(i as int + 1) == w@.take(i as int).push(w@[i as int]));
            }
            self.ready.push(w[i]);
            i = i + 1;
        }
        proof {
            assert(w@.take(w@.len() as int) == w@);
        }
        0
    }

    /// Takes every thread of process `pid` off the ready queue and off
    /// every sleep queue, as the threads of a dying process must be.
    pub fn unqueue_proc(&mut self, pid: isize)
        ensures
            final(self).ready@ == queue_without(old(self).ready@, pid),
            final(self).queues@.len() == old(self).queues@.len(),
            forall|q: int|
                0 <= q < old(self).queues@.len() ==> (#[trigger] final(self).queues@[q])@
                    == queue_without(old(self).queues@[q]@, pid),
            final(self).current == old(self).current,
            final(self).kidle == old(self).kidle,
    {
        let r = without_proc(&self.ready, pid);
        self.ready = r;
        let mut q: usize = 0;
        while q < self.queues.len()
            invariant
                q <= self.queues.len(),
                self.queues@.len() == old(self).queues@.len(),
                self.ready@ == queue_without(old(self).ready@, pid),
                forall|j: int|
                    0 <= j < q ==> (#[trigger] self.queues@[j])@ == queue_without(old(self).queues@[j]@, pid),
                forall|j: int| q <= j < self.queues@.len() ==> #[trigger] self.queues@[j] == old(self).queues@[j],
                self.current == old(self).current,
                self.kidle == old(self).kidle,
            decreases old(self).queues@.len() - q,
        {
            let w = without_proc(&self.queues[q], pid);
            self.queues.set(q, w);
            q = q + 1;
        }
    }
}

/// `q` without the threads of process `pid`, in order.
pub open spec fn queue_without(q: Seq<ThreadRef>, pid: isize) -> Seq<ThreadRef> {
    q.filter(|x: ThreadRef| x.pid != pid)
}

/// `v` without the threads of process `pid`, in order.
fn without_proc(v: &Vec<ThreadRef>, pid: isize) -> (r: Vec<ThreadRef>)
    ensures
        r@ == queue_without(v@, pid),
{
    let mut r: Vec<ThreadRef> = Vec::new();
    let mut i: usize = 0;
    while i < v.len()
        invariant
            i <= v.len(),
            r@ == queue_without(v@.take(i as int), pid),
        decreases v.len() - i,
    {
        proof {
            assert(v@.take(i as int + 1).drop_last() == v@.take(i as int));
            reveal(Seq::filter);
        }
        if v[i].pid != pid {
            r.push(v[i]);
        }
        i = i + 1;
    }
    proof {
        assert(v@.take(v@.len() as int) == v@);
    }
    r
}

/// Marks `thread` as having run, as it starts.
pub fn sched_thread_spawn(thread: &mut Thread)
    ensures
        *final(thread) == (Thread { spawned: 1, ..*old(thread) }),
{
    thread.spawned = 1;
}

/// The end of a sleep, for the thread woken: -1 when a signal ended it,
/// the thread not being asleep any more; else 0, the thread becoming
/// runnable.
pub fn thread_queue_woken(thread: &mut Thread) -> (r: isize)
    ensures
        old(thread).state != ThreadState::ISLEEP ==> r == -1 && *final(thread) == *old(thread),
        old(thread).state == ThreadState::ISLEEP ==> r == 0 && *final(thread) == (Thread {
            state: ThreadState::RUNNABLE,
            ..*old(thread)
        }),
{
    if thread.state != ThreadState::ISLEEP {
        return -1;
    }
    thread.state = ThreadState::RUNNABLE;
    0
}

/// A thread that sleeps on a queue becomes ready when that queue is woken,
/// after every thread that was ready and every thread that slept there
/// before it: `thread_queue_sleep` then `thread_queue_wakeup` of the same
/// queue leave the sleeper last in the ready queue and keep the order of
/// the others.
pub proof fn lemma_sleep_then_wakeup(ready: Seq<ThreadRef>, waiting: Seq<ThreadRef>, c: ThreadRef)
    ensures
        ({
            let r = ready + waiting.push(c);
            &&& r.len() == ready.len() + waiting.len() + 1
            &&& r.last() == c
            &&& r.take(ready.len() as int) == ready
            &&& r.subrange(ready.len() as int, r.len() - 1) == waiting
        }),
{
    let r = ready + waiting.push(c);
    assert(r.take(ready.len() as int) =~= ready);
    assert(r.subrange(ready.len() as int, r.len() - 1) =~= waiting);
}

/// Threads run in the order they became ready: `schedule` runs the first
/// thread of the ready queue, and the running thread, unless the
/// processor idled, goes back behind all of them; alone, it runs again.
pub proof fn lemma_schedule_fifo(ready: Seq<ThreadRef>, current: Option<ThreadRef>, kidle: isize)
    requires
        kidle == 0 ==> current is Some,
    ensures
        ({
            let q = ready_before_pick(ready, current, kidle);
            &&& ready.len() > 0 ==> q[0] == ready[0]
            &&& kidle == 0 ==> q.drop_first().len() == ready.len()
            &&& kidle == 0 && ready.len() > 0 ==> q.drop_first().last() == current.unwrap()
            &&& kidle == 0 && ready.len() == 0 ==> q[0] == current.unwrap()
            &&& kidle != 0 && ready.len() == 0 ==> q.len() == 0
        }),
{
    let q = ready_before_pick(ready, current, kidle);
    if kidle == 0 && ready.len() > 0 {
        assert(q.drop_first()[ready.len() - 1] == q[ready.len() as int]);
    }
}

/// After `unqueue_proc(pid)` no queue holds a thread of process `pid`, and
/// every other thread a queue held is still there.
pub proof fn lemma_unqueue_proc(q: Seq<ThreadRef>, pid: isize)
    ensures
        forall|i: int|
            0 <= i < queue_without(q, pid).len() ==> (#[trigger] queue_without(q, pid)[i]).pid != pid,
        forall|i: int|
            0 <= i < q.len() && q[i].pid != pid ==> #[trigger] queue_without(q, pid).contains(q[i]),
{
    broadcast use vstd::seq_lib::group_filter_ensures;
    let f = |x: ThreadRef| x.pid != pid;
    assert forall|i: int| 0 <= i < q.len() && q[i].pid != pid implies #[trigger] queue_without(q, pid).contains(q[i]) by {
        q.lemma_filter_contains(f, i);
    }
    assert forall|i: int| 0 <= i < queue_without(q, pid).len() implies (#[trigger] queue_without(q, pid)[i]).pid != pid by {
        q.lemma_filter_pred(f, i);
    }
}

impl Kernel {
    /// Starts process `idx` as init: it gets an id, descriptors and a
    /// signal queue, creation mask 775, working directory `/` and a new
    /// session; its first thread becomes the running thread, runnable and
    /// started.
    pub fn sched_init_spawn(&mut self, sched: &mut Scheduler, idx: usize) -> (t: ThreadRef)
        requires
            idx < old(self).procs.len(),
            old(self).pids_ok(),
            old(self).procs@[idx as int].threads@.len() > 0,
            old(self).pgroups.len() < usize::MAX,
            old(self).sessions.len() < usize::MAX,
        ensures
            ({
                let np = first_free_from(old(self).pids.bitmap@, old(self).pids.ff_pid as int, PID_MAX as int);
                let p = final(self).procs@[idx as int];
                let t0 = old(self).procs@[idx as int].threads@[0];
                &&& final(self).pids_ok()
                &&& final(self).procs@.len() == old(self).procs@.len()
                &&& forall|j: int|
                    0 <= j < old(self).procs@.len() && j != idx ==> #[trigger] final(self).procs@[j]
                        == old(self).procs@[j]
                &&& p.pid == (if np < PID_MAX { np } else { -1 })
                &&& p.mask == 775
                &&& p.cwd@ == seq![47u8]
                &&& p.fds@.len() == FDS_COUNT
                &&& p.sig_queue matches Some(q) && q@.len() == 0
                &&& p.pgrp == old(self).pgroups.len()
                &&& final(self).pgroups@.len() == old(self).pgroups@.len() + 1
                &&& final(self).pgroups@[old(self).pgroups.len() as int].procs@ == seq![p.pid]
                &&& final(self).sessions@.len() == old(self).sessions@.len() + 1
                &&& final(self).sessions@[old(self).sessions.len() as int].leader == p.pid
                &&& p.threads@ == owned_by(old(self).procs@[idx as int].threads@, p.pid).update(
                    0,
                    Thread { state: ThreadState::RUNNABLE, spawned: 1, owner: p.pid, ..t0 },
                )
                &&& t == ThreadRef { pid: p.pid, tid: t0.tid }
                &&& final(sched).current == Some(t)
                &&& final(sched).ready@ == old(sched).ready@
                &&& final(sched).queues@ == old(sched).queues@
                &&& final(sched).kidle == old(sched).kidle
            }),
    {
        self.proc_init(idx);
        self.procs[idx].mask = 775;
        self.procs[idx].cwd = vec![47u8];
        self.session_new(idx);
        self.procs[idx].threads[0].state = ThreadState::RUNNABLE;
        let t = ThreadRef { pid: self.procs[idx].pid, tid: self.procs[idx].threads[0].tid };
        sched.current = Some(t);
        sched_thread_spawn(&mut self.procs[idx].threads[0]);
        t
    }

    /// Adds a thread to process `idx`, numbered after the last; returns it.
    pub fn thread_create(&mut self, idx: usize) -> (t: ThreadRef)
        requires
            idx < old(self).procs.len(),
            old(self).procs@[idx as int].threads.len() < isize::MAX,
        ensures
            ({
                let p = old(self).procs@[idx as int];
                let tid = (p.threads@.len() + 1) as isize;
                &&& t == ThreadRef { pid: p.pid, tid }
                &&& final(self).procs@ == old(self).procs@.update(
                    idx as int,
                    Process { threads: final(self).procs@[idx as int].threads, ..p },
                )
                &&& final(self).procs@[idx as int].threads@ == p.threads@.push(Thread::spec_new(tid, p.pid))
            }),
            final(self).pgroups == old(self).pgroups,
            final(self).sessions == old(self).sessions,
            final(self).pids == old(self).pids,
    {
        let tid = (self.procs[idx].threads.len() + 1) as isize;
        self.procs[idx].new_thread();
        ThreadRef { pid: self.procs[idx].pid, tid }
    }

    /// Creates a thread in process `idx` and makes it ready; returns its id.
    pub fn sys_thread_create(&mut self, sched: &mut Scheduler, idx: usize) -> (r: isize)
        requires
            idx < old(self).procs.len(),
            old(self).procs@[idx as int].threads.len() < isize::MAX,
        ensures
            ({
                let p = old(self).procs@[idx as int];
                let tid = (p.threads@.len() + 1) as isize;
                &&& r == tid
                &&& final(self).procs@[idx as int].threads@ == p.threads@.push(Thread::spec_new(tid, p.pid))
                &&& final(self).procs@.len() == old(self).procs@.len()
                &&& forall|j: int|
                    0 <= j < old(self).procs@.len() && j != idx ==> #[trigger] final(self).procs@[j]
                        == old(self).procs@[j]
                &&& final(sched).ready@ == old(sched).ready@.push(ThreadRef { pid: p.pid, tid })
                &&& final(sched).queues@ == old(sched).queues@
                &&& final(sched).current == old(sched).current
            }),
    {
        let t = self.thread_create(idx);
        sched.sched_thread_ready(t);
        t.tid
    }

    /// Forks process `parent`, as `proc_fork` does with physical map
    /// `pmap`, and makes the child's thread ready.
    pub fn sys_fork(&mut self, sched: &mut Scheduler, parent: usize, pmap: usize) -> (o: ForkOutcome)
        requires
            parent < old(self).procs.len(),
            old(self).procs.len() < usize::MAX,
            old(self).pids_ok(),
            old(self).procs@[parent as int].pgrp < old(self).pgroups.len(),
            ({
                let es = old(self).procs@[parent as int].vm_space.vm_entries@;
                &&& handles_in(es, old(self).mm.anons@.len() as int, old(self).mm.objects@.len() as int)
                &&& forall|x: int|
                    0 <= x < old(self).mm.anons@.len() ==> #[trigger] old(self).mm.anons@[x].refcnt
                        + count_anon(es, x) <= usize::MAX
                &&& forall|x: int|
                    0 <= x < old(self).mm.objects@.len() ==> #[trigger] old(self).mm.objects@[x].refcnt
                        + count_object(es, x) <= usize::MAX
            }),
        ensures
            ({
                let n = old(self).procs@.len();
                let np = first_free_from(old(self).pids.bitmap@, old(self).pids.ff_pid as int, PID_MAX as int);
                &&& o.child == n
                &&& o.pid == (if np < PID_MAX { np } else { -1 })
                &&& final(self).pids_ok()
                &&& o.pid > 0 ==> forall|j: int| 0 <= j < n ==> #[trigger] old(self).procs@[j].pid != o.pid
                &&& final(self).procs@.len() == n + 1
                &&& final(self).procs@.take(n as int) == old(self).procs@
                &&& final(self).procs@[n as int].pid == o.pid
                &&& final(self).procs@[n as int].parent == Some(old(self).procs@[parent as int].pid)
                &&& final(self).procs@[n as int].threads@ == seq![Thread { spawned: 1, ..Thread::spec_new(1, o.pid) }]
                &&& final(sched).ready@ == old(sched).ready@.push(ThreadRef { pid: o.pid, tid: 1 })
                &&& final(sched).queues@ == old(sched).queues@
                &&& final(sched).current == old(sched).current
                &&& final(sched).kidle == old(sched).kidle
            }),
    {
        let o = self.proc_fork(parent, pmap);
        let tid = self.procs[o.child].threads[0].tid;
        sched.sched_thread_ready(ThreadRef { pid: o.pid, tid });
        o
    }

    /// Ends thread `t` of process `idx`, the running thread: it dies, and
    /// the threads waiting on `join`, the process's join queue, wake.
    pub fn sys_thread_exit(&mut self, sched: &mut Scheduler, idx: usize, t: usize, join: usize)
        requires
            idx < old(self).procs.len(),
            t < old(self).procs@[idx as int].threads.len(),
            join < old(sched).queues.len(),
        ensures
            ({
                let ts = old(self).procs@[idx as int].threads@;
                &&& final(self).procs@[idx as int].threads@ == ts.update(
                    t as int,
                    Thread { state: ThreadState::ZOMBIE, ..ts[t as int] },
                )
                &&& final(self).procs@.len() == old(self).procs@.len()
                &&& forall|j: int|
                    0 <= j < old(self).procs@.len() && j != idx ==> #[trigger] final(self).procs@[j]
                        == old(self).procs@[j]
                &&& final(sched).ready@ == old(sched).ready@ + old(sched).queues@[join as int]@
                &&& final(sched).queues@[join as int]@.len() == 0
                &&& final(sched).current == old(sched).current
            }),
    {
        self.procs[idx].threads[t].kill();
        sched.thread_queue_wakeup(join);
    }
}

} // verus!
