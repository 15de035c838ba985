use vstd::prelude::*;

use crate::errno::{ECHILD, EINTR, ESRCH};
use crate::signal::SIGCHLD;
use crate::process::{
    copy_fds, empty_fds, fd_refs, first_free_from, fork_proc_copy, lemma_first_free_from, proc_exit,
    zeroed_rest, FdRef, PidMap, Process, FDS_COUNT, PID_MAX,
};
use crate::thread::{owned_by, set_owner, Thread, ThreadState};
use crate::fault::{regions_releasable, release_all, Mm};
use crate::sched::{queue_without, Scheduler};
use crate::vm_space::{
    count_anon, count_object, fork_protects, forked_anon_ok, forked_object_ok, handles_in,
    PmapProtect, VmSpace,
};

verus! {

/// Do not block in `waitpid`.
pub const WNOHANG: usize = 1;

/// A session: its id, its process groups by handle, its leader by process
/// id, and its controlling terminal by handle.
pub struct Session {
    pub sid: isize,
    pub pgps: Vec<usize>,
    pub leader: isize,
    pub ctty: Option<usize>,
}

/// A process group: its id, its session by handle, its processes by id,
/// and its leader by process id.
pub struct ProcessGroup {
    pub pgid: isize,
    pub session: usize,
    pub procs: Vec<isize>,
    pub leader: isize,
}

/// The process table of the kernel, with the tables of the objects that
/// processes share.
pub struct Kernel {
    /// All processes.
    pub procs: Vec<Process>,
    /// All process groups.
    pub pgroups: Vec<ProcessGroup>,
    /// All sessions.
    pub sessions: Vec<Session>,
    /// The process ids in use.
    pub pids: PidMap,
    /// The memory state: pages, anons, arefs and objects.
    pub mm: Mm,
}

/// The first process from `i` on whose id is `pid`, or the number of
/// processes.
pub open spec fn find_pid(procs: Seq<Process>, pid: isize, i: int) -> int
    decreases procs.len() - i,
{
    if i < 0 || i >= procs.len() {
        procs.len() as int
    } else if procs[i].pid == pid {
        i
    } else {
        find_pid(procs, pid, i + 1)
    }
}

proof fn lemma_find_pid(procs: Seq<Process>, pid: isize, i: int)
    requires
        0 <= i <= procs.len(),
    ensures
        i <= find_pid(procs, pid, i) <= procs.len(),
        find_pid(procs, pid, i) < procs.len() ==> procs[find_pid(procs, pid, i)].pid == pid,
        forall|j: int| i <= j < find_pid(procs, pid, i) ==> #[trigger] procs[j].pid != pid,
    decreases procs.len() - i,
{
    if i < procs.len() && procs[i].pid != pid {
        lemma_find_pid(procs, pid, i + 1);
    }
}

/// Two process tables with the same ids find the same process.
proof fn lemma_find_pid_same(a: Seq<Process>, b: Seq<Process>, pid: isize, i: int)
    requires
        a.len() == b.len(),
        forall|j: int| 0 <= j < a.len() ==> #[trigger] a[j].pid == b[j].pid,
    ensures
        find_pid(a, pid, i) == find_pid(b, pid, i),
    decreases a.len() - i,
{
    if 0 <= i < a.len() && a[i].pid != pid {
        lemma_find_pid_same(a, b, pid, i + 1);
    }
}

/// `v` without the first occurrence of `x`.
pub open spec fn remove_first(v: Seq<isize>, x: isize) -> Seq<isize>
    decreases v.len(),
{
    if v.len() == 0 {
        v
    } else if v[0] == x {
        v.drop_first()
    } else {
        seq![v[0]] + remove_first(v.drop_first(), x)
    }
}

/// Removes the first occurrence of `x` from `v`.
fn vec_remove_first(v: &mut Vec<isize>, x: isize)
    ensures
        final(v)@ == remove_first(old(v)@, x),
{
    let mut i: usize = 0;
    while i < v.len()
        invariant
            i <= v.len(),
            v@ == old(v)@,
            forall|j: int| 0 <= j < i ==> v@[j] != x,
        decreases v.len() - i,
    {
        if v[i] == x {
            proof {
                lemma_remove_first_at(v@, x, i as int);
            }
            v.remove(i);
            return;
        }
        i = i + 1;
    }
    proof {
        lemma_remove_first_absent(v@, x);
    }
}

proof fn lemma_remove_first_at(v: Seq<isize>, x: isize, i: int)
    requires
        0 <= i < v.len(),
        v[i] == x,
        forall|j: int| 0 <= j < i ==> v[j] != x,
    ensures
        remove_first(v, x) == v.remove(i),
    decreases i,
{
    if i > 0 {
        lemma_remove_first_at(v.drop_first(), x, i - 1);
        assert(remove_first(v, x) =~= v.remove(i));
    } else {
        assert(v.drop_first() =~= v.remove(0));
    }
}

proof fn lemma_remove_first_absent(v: Seq<isize>, x: isize)
    requires
        forall|j: int| 0 <= j < v.len() ==> v[j] != x,
    ensures
        remove_first(v, x) == v,
    decreases v.len(),
{
    if v.len() > 0 {
        lemma_remove_first_absent(v.drop_first(), x);
        assert(seq![v[0]] + v.drop_first() =~= v);
    }
}

/// A copy of `v`.
fn copy_bytes(v: &Vec<u8>) -> (r: Vec<u8>)
    ensures
        r@ == v@,
{
    let mut r: Vec<u8> = Vec::new();
    let mut i: usize = 0;
    while i < v.len()
        invariant
            i <= v.len(),
            r@ == v@.take(i as int),
        decreases v.len() - i,
    {
        r.push(v[i]);
        i = i + 1;
        assert(r@ =~= v@.take(i as int));
    }
    assert(v@.take(v.len() as int) == v@);
    r
}

/// How a signal sent to a process is delivered.
#[derive(Clone, Copy, Debug, PartialEq, Eq, Structural)]
pub enum SigDelivery {
    /// The target is the current process: it handles the signal at once.
    Handle,
    /// The signal was queued; the sleep queue of the target's main thread
    /// is to be woken when it sleeps interruptibly.
    Queued { wake: Option<usize> },
}

/// What a process's death leaves to do outside the process table.
pub struct KillOutcome {
    /// The threads of the process, all removed from it.
    pub threads: Vec<Thread>,
    /// Whether the current thread was among them.
    pub kill_current: bool,
    /// The pages the release of the process's regions frees.
    pub freed: Vec<usize>,
    /// The physical map of the process, to release.
    pub pmap: usize,
    /// How `SIGCHLD` was delivered to the parent; `None` when there was no
    /// parent and the process was reaped.
    pub sigchld: Option<SigDelivery>,
}

/// What a fork leaves to do outside the process table.
pub struct ForkOutcome {
    /// Index of the new process.
    pub child: usize,
    /// Id of the new process.
    pub pid: isize,
    /// The references to open files that the copied descriptors add.
    pub refs: Vec<FdRef>,
    /// The protection requests that make the parent's writable private
    /// regions read-only.
    pub protects: Vec<PmapProtect>,
}

/// What `waitpid` does.
#[derive(Clone, Copy, Debug, PartialEq, Eq, Structural)]
pub enum WaitOutcome {
    /// A dead child was reaped: its id and exit status.
    Reaped { pid: isize, status: isize },
    /// The call returns this value.
    Return(isize),
    /// The caller sleeps on its process's wait queue, then goes on with
    /// `sys_waitpid_woken`.
    Sleep,
}

/// The first child of `parent` from `i` on, dead or alive, or the number
/// of processes.
pub open spec fn first_child(procs: Seq<Process>, parent: isize, i: int) -> int
    decreases procs.len() - i,
{
    if i < 0 || i >= procs.len() {
        procs.len() as int
    } else if procs[i].parent == Some(parent) {
        i
    } else {
        first_child(procs, parent, i + 1)
    }
}

/// The first dead child of `parent` from `i` on, or the number of
/// processes.
pub open spec fn first_dead_child(procs: Seq<Process>, parent: isize, i: int) -> int
    decreases procs.len() - i,
{
    if i < 0 || i >= procs.len() {
        procs.len() as int
    } else if procs[i].parent == Some(parent) && procs[i].running == 0 {
        i
    } else {
        first_dead_child(procs, parent, i + 1)
    }
}

proof fn lemma_first_dead_child(procs: Seq<Process>, parent: isize, i: int)
    requires
        0 <= i <= procs.len(),
    ensures
        i <= first_dead_child(procs, parent, i) <= procs.len(),
        first_dead_child(procs, parent, i) < procs.len() ==> procs[first_dead_child(
            procs,
            parent,
            i,
        )].parent == Some(parent) && procs[first_dead_child(procs, parent, i)].running == 0,
    decreases procs.len() - i,
{
    if i < procs.len() && !(procs[i].parent == Some(parent) && procs[i].running == 0) {
        lemma_first_dead_child(procs, parent, i + 1);
    }
}

proof fn lemma_first_child(procs: Seq<Process>, parent: isize, i: int)
    requires
        0 <= i <= procs.len(),
    ensures
        i <= first_child(procs, parent, i) <= procs.len(),
        first_child(procs, parent, i) <= first_dead_child(procs, parent, i),
    decreases procs.len() - i,
{
    lemma_first_dead_child(procs, parent, i);
    if i < procs.len() && procs[i].parent != Some(parent) {
        lemma_first_child(procs, parent, i + 1);
    }
}

/// What `waitpid` from the current process `cur` for `pid` with `options`
/// does to the process table `ps` and pid map `pids`, leaving the kernel
/// `after` and returning `r`.
///
/// With `pid` -1, the first dead child is reaped; when there is none the
/// call returns 0 with `WNOHANG` if there are children, `-ECHILD` if there
/// are none, and sleeps otherwise. With a positive `pid`, that process is
/// waited for: `-ECHILD` when it does not exist or is not a child of the
/// caller, reaped when it is dead, slept on otherwise.
pub open spec fn waitpid_done(
    ps: Seq<Process>,
    pids: PidMap,
    after: Kernel,
    cur: int,
    pid: isize,
    options: usize,
    r: WaitOutcome,
) -> bool {
    let me = ps[cur].pid;
    let k = if pid == -1 {
        first_dead_child(ps, me, 0)
    } else {
        find_pid(ps, pid, 0)
    };
    let reaped = k < ps.len() && (pid == -1 || (ps[k].parent == Some(me) && ps[k].running == 0));
    &&& reaped ==> after.pids.bitmap@ == pids.bitmap@.update(ps[k].pid as int, false)
        && after.pids_ok()
    &&& !reaped ==> after.pids == pids
    &&& pid == -1 && k < ps.len() ==> r == (WaitOutcome::Reaped {
        pid: ps[k].pid,
        status: ps[k].exit,
    }) && after.procs@ == ps.remove(k)
    &&& pid == -1 && k == ps.len() && options & WNOHANG != 0 ==> (r matches WaitOutcome::Return(v) && v == (if first_child(ps, me, 0) < ps.len() {
        0
    } else {
        -ECHILD
    })) && after.procs@ == ps
    &&& pid == -1 && k == ps.len() && options & WNOHANG == 0 ==> r == WaitOutcome::Sleep
        && after.procs@ == ps
    &&& pid > 0 && (k == ps.len() || ps[k].parent != Some(me)) ==> (r matches WaitOutcome::Return(v) && v == -ECHILD) && after.procs@ == ps
    &&& pid > 0 && k < ps.len() && ps[k].parent == Some(me) && ps[k].running == 0
        ==> r == (WaitOutcome::Reaped { pid: ps[k].pid, status: ps[k].exit })
        && after.procs@ == ps.remove(k)
    &&& pid > 0 && k < ps.len() && ps[k].parent == Some(me) && ps[k].running != 0
        ==> r == WaitOutcome::Sleep && after.procs@ == ps
}

/// What a process is after its death, as the process table keeps it.
pub open spec fn dead_process(p: Process) -> bool {
    &&& p.running == 0
    &&& p.threads@.len() == 0
    &&& p.fds@.len() == 0
    &&& p.cwd@.len() == 0
    &&& p.name@.len() == 0
    &&& p.sig_queue is None
    &&& p.vm_space.vm_entries@.len() == 0
}

/// The pid map `pids` is well formed, every process of `ps` with an id
/// above 0 holds one the map marks in use, and no two processes share an id
/// above 0.
pub open spec fn pids_hold(ps: Seq<Process>, pids: PidMap) -> bool {
    &&& pids.inv()
    &&& forall|j: int|
        #![trigger ps[j]]
        0 <= j < ps.len() && ps[j].pid > 0 ==> ps[j].pid <= PID_MAX && pids.bitmap@[ps[j].pid as int]
    &&& forall|i: int, j: int|
        #![trigger ps[i], ps[j]]
        0 <= i < ps.len() && 0 <= j < ps.len() && i != j && ps[i].pid > 0 ==> ps[i].pid != ps[j].pid
}

/// Two tables with the same ids hold them alike.
proof fn lemma_pids_hold_same(a: Seq<Process>, b: Seq<Process>, pids: PidMap)
    requires
        a.len() == b.len(),
        forall|j: int| 0 <= j < a.len() ==> #[trigger] a[j].pid == b[j].pid,
        pids_hold(a, pids),
    ensures
        pids_hold(b, pids),
{
    assert forall|j: int| #![trigger b[j]] 0 <= j < b.len() && b[j].pid > 0 implies b[j].pid
        <= PID_MAX && pids.bitmap@[b[j].pid as int] by {
        assert(a[j].pid == b[j].pid);
    }
    assert forall|i: int, j: int|
        #![trigger b[i], b[j]]
        0 <= i < b.len() && 0 <= j < b.len() && i != j && b[i].pid > 0 implies b[i].pid
            != b[j].pid by {
        assert(a[i].pid == b[i].pid);
        assert(a[j].pid == b[j].pid);
    }
}

/// `q` once process `pid` has died: a child of it loses its parent.
pub open spec fn orphaned(q: Process, pid: isize) -> Process {
    if q.parent == Some(pid) {
        Process { parent: None, ..q }
    } else {
        q
    }
}

/// What killing process `idx` of the table `ps`, with process groups `pg`,
/// pid map `pids` and memory `mm`, leaves in the kernel `k`, the scheduler
/// going from `s0` to `s1`, the current process being `cur` and its thread
/// `cur_tid`; `o` is what the kill returns.
///
/// The process stops running and loses its threads, which leave the ready
/// queue and every sleep queue; its regions give up their anons and
/// objects; its children lose their parent, every other process being left
/// as it was; it leaves its process group. With a parent it stays in the
/// table, dead, for the parent to reap: the threads on the parent's wait
/// queue become ready, and the parent is sent `SIGCHLD`, handled at once
/// when it is the current process and queued otherwise. Without a parent
/// it is reaped: its id is freed and it leaves the table.
pub open spec fn kill_done(
    ps: Seq<Process>,
    pg: Seq<ProcessGroup>,
    pids: PidMap,
    mm: Mm,
    k: Kernel,
    s0: Scheduler,
    s1: Scheduler,
    idx: int,
    cur: int,
    cur_tid: Option<isize>,
    o: KillOutcome,
) -> bool {
    let p = ps[idx];
    let n = ps.len();
    let es = p.vm_space.vm_entries@;
    let rel = release_all(mm.anons@, mm.arefs@, es);
    let kp = find_pid(ps, p.parent.unwrap(), 0);
    let wq = ps[kp].wait_queue as int;
    let woken = p.parent is Some && wq < s0.queues@.len();
    &&& o.threads@ == p.threads@
    &&& o.kill_current == (exists|j: int|
        0 <= j < p.threads@.len() && cur_tid == Some(#[trigger] p.threads@[j].tid))
    &&& s1.ready@ == queue_without(s0.ready@, p.pid) + (if woken {
        queue_without(s0.queues@[wq]@, p.pid)
    } else {
        seq![]
    })
    &&& s1.queues@.len() == s0.queues@.len()
    &&& forall|q: int|
        0 <= q < s0.queues@.len() ==> (#[trigger] s1.queues@[q])@ == (if woken && q == wq {
            seq![]
        } else {
            queue_without(s0.queues@[q]@, p.pid)
        })
    &&& s1.current == s0.current
    &&& s1.kidle == s0.kidle
    &&& o.freed@ == rel.2
    &&& k.mm.anons@ == rel.0
    &&& k.mm.arefs@ == rel.1
    &&& k.mm.objects@.len() == mm.objects@.len()
    &&& forall|x: int|
        0 <= x < mm.objects@.len() ==> (#[trigger] k.mm.objects@[x]).refcnt == mm.objects@[x].refcnt
            - count_object(es, x) && k.mm.objects@[x].pages@ == mm.objects@[x].pages@
    &&& k.mm.pages.pages@ == mm.pages.pages@
    &&& k.mm.buddy == mm.buddy
    &&& o.pmap == p.vm_space.pmap
    &&& k.pgroups@.len() == pg.len()
    &&& k.pgroups@[p.pgrp as int].procs@ == remove_first(pg[p.pgrp as int].procs@, p.pid)
    &&& forall|x: int|
        0 <= x < pg.len() && x != p.pgrp ==> #[trigger] k.pgroups@[x] == pg[x]
    &&& k.pids_ok()
    &&& p.parent is Some ==> {
        &&& k.procs@.len() == n
        &&& dead_process(k.procs@[idx])
        &&& k.procs@[idx].pid == p.pid
        &&& k.procs@[idx].parent == p.parent
        &&& k.procs@[idx].exit == p.exit
        &&& k.procs@[idx].pgrp == p.pgrp
        &&& k.pids == pids
        &&& forall|j: int|
            0 <= j < n && j != idx && j != kp ==> #[trigger] k.procs@[j] == orphaned(ps[j], p.pid)
        &&& kp == cur ==> o.sigchld == Some(SigDelivery::Handle) && k.procs@[kp] == orphaned(
            ps[kp],
            p.pid,
        )
        &&& kp != cur ==> {
            let t = ps[kp].threads@[0];
            &&& o.sigchld == Some(
                SigDelivery::Queued {
                    wake: if t.state == ThreadState::ISLEEP { t.sleep_queue } else { None },
                },
            )
            &&& k.procs@[kp] == (Process {
                sig_queue: k.procs@[kp].sig_queue,
                ..orphaned(ps[kp], p.pid)
            })
            &&& k.procs@[kp].sig_queue matches Some(q) && q@ == ps[kp].sig_queue.unwrap()@.push(
                SIGCHLD,
            )
        }
    }
    &&& p.parent is None ==> {
        &&& o.sigchld is None
        &&& k.procs@.len() == n - 1
        &&& k.pids.bitmap@ == pids.bitmap@.update(p.pid as int, false)
        &&& forall|j: int|
            0 <= j < n - 1 ==> #[trigger] k.procs@[j] == orphaned(
                ps[if j < idx {
                    j
                } else {
                    j + 1
                }],
                p.pid,
            )
    }
}

impl Kernel {
    /// The pid map is well formed, every process with an id above 0 holds
    /// one the map marks in use, and no two processes share an id above 0.
    pub open spec fn pids_ok(&self) -> bool {
        pids_hold(self.procs@, self.pids)
    }

    /// The index of the first process whose id is `pid`.
    pub fn proc_pid_find(&self, pid: isize) -> (r: Option<usize>)
        ensures
            match r {
                Some(i) => i == find_pid(self.procs@, pid, 0) && i < self.procs.len(),
                None => find_pid(self.procs@, pid, 0) == self.procs.len(),
            },
    {
        let mut i: usize = 0;
        while i < self.procs.len()
            invariant
                i <= self.procs.len(),
                find_pid(self.procs@, pid, 0) == find_pid(self.procs@, pid, i as int),
            decreases self.procs.len() - i,
        {
            if self.procs[i].pid == pid {
                return Some(i);
            }
            i = i + 1;
        }
        None
    }

    /// Adds a new running process with physical map `pmap` and one thread,
    /// every other field zero; returns its index.
    pub fn proc_new(&mut self, pmap: usize) -> (r: usize)
        requires
            old(self).procs.len() < usize::MAX,
        ensures
            r == old(self).procs.len(),
            final(self).procs@.len() == old(self).procs@.len() + 1,
            final(self).procs@.take(r as int) == old(self).procs@,
            zeroed_rest(final(self).procs@[r as int]),
            final(self).procs@[r as int].running == 1,
            final(self).procs@[r as int].threads@ == seq![Thread::spec_new(1, 0)],
            final(self).procs@[r as int].vm_space.pmap == pmap,
            final(self).pgroups == old(self).pgroups,
            final(self).sessions == old(self).sessions,
            final(self).pids == old(self).pids,
            final(self).mm == old(self).mm,
            old(self).pids_ok() ==> final(self).pids_ok(),
    {
        let mut p = Process::new_zeroed();
        p.new_thread();
        p.vm_space.pmap = pmap;
        p.running = 1;
        let r = self.procs.len();
        self.procs.push(p);
        assert(self.procs@.take(r as int) =~= old(self).procs@);
        proof {
            assert forall|j: int| 0 <= j < r implies #[trigger] self.procs@[j] == old(self).procs@[j] by {
                assert(self.procs@.take(r as int)[j] == self.procs@[j]);
            }
        }
        r
    }

    /// Gives process `idx` an id, which its threads record as their owner's,
    /// a table of free file descriptors and an empty signal queue; returns 0.
    pub fn proc_init(&mut self, idx: usize) -> (r: isize)
        requires
            idx < old(self).procs.len(),
            old(self).pids_ok(),
        ensures
            r == 0,
            final(self).pids_ok(),
            ({
                let p = first_free_from(
                    old(self).pids.bitmap@,
                    old(self).pids.ff_pid as int,
                    PID_MAX as int,
                );
                final(self).procs@[idx as int].pid == (if p < PID_MAX { p } else { -1 })
            }),
            final(self).procs@[idx as int].fds@.len() == FDS_COUNT,
            forall|i: int|
                0 <= i < FDS_COUNT ==> #[trigger] final(self).procs@[idx as int].fds@[i].backend
                    == crate::file::NO_FILE,
            final(self).procs@[idx as int].sig_queue matches Some(q) && q@.len() == 0,
            final(self).procs@.len() == old(self).procs@.len(),
            forall|j: int|
                0 <= j < old(self).procs@.len() && j != idx ==> #[trigger] final(self).procs@[j]
                    == old(self).procs@[j],
            final(self).procs@[idx as int] == (Process {
                pid: final(self).procs@[idx as int].pid,
                fds: final(self).procs@[idx as int].fds,
                sig_queue: final(self).procs@[idx as int].sig_queue,
                threads: final(self).procs@[idx as int].threads,
                ..old(self).procs@[idx as int]
            }),
            final(self).procs@[idx as int].threads@ == owned_by(
                old(self).procs@[idx as int].threads@,
                final(self).procs@[idx as int].pid,
            ),
            final(self).pgroups == old(self).pgroups,
            final(self).sessions == old(self).sessions,
            final(self).mm == old(self).mm,
    {
        proof {
            lemma_first_free_from(self.pids.bitmap@, self.pids.ff_pid as int, PID_MAX as int);
        }
        let pid = self.pids.proc_pid_alloc();
        self.procs[idx].pid = pid;
        self.procs[idx].fds = empty_fds();
        self.procs[idx].sig_queue = Some(Vec::new());
        let mut ts: Vec<Thread> = Vec::new();
        std::mem::swap(&mut ts, &mut self.procs[idx].threads);
        set_owner(&mut ts, pid);
        self.procs[idx].threads = ts;
        0
    }

    /// Frees the id of process `idx` and removes it from the table;
    /// returns 0.
    pub fn proc_reap(&mut self, idx: usize) -> (r: isize)
        requires
            idx < old(self).procs.len(),
            old(self).pids_ok(),
            0 <= old(self).procs@[idx as int].pid <= PID_MAX,
        ensures
            r == 0,
            final(self).pids_ok(),
            final(self).pids.bitmap@ == old(self).pids.bitmap@.update(
                old(self).procs@[idx as int].pid as int,
                false,
            ),
            final(self).procs@ == old(self).procs@.remove(idx as int),
            final(self).pgroups == old(self).pgroups,
            final(self).sessions == old(self).sessions,
            final(self).mm == old(self).mm,
    {
        let pid = self.procs[idx].pid;
        self.pids.proc_pid_free(pid);
        self.procs.remove(idx);
        proof {
            let ps = old(self).procs@;
            assert forall|j: int| #![trigger self.procs@[j]] 0 <= j < self.procs@.len()
                implies self.procs@[j] == ps[if j < idx { j } else { j + 1 }] by {}
            assert forall|i: int, j: int|
                #![trigger self.procs@[i], self.procs@[j]]
                0 <= i < self.procs@.len() && 0 <= j < self.procs@.len() && i != j
                    && self.procs@[i].pid > 0 implies self.procs@[i].pid != self.procs@[j].pid by {
                let oi = if i < idx { i } else { i + 1 };
                let oj = if j < idx { j } else { j + 1 };
                assert(ps[oi].pid != ps[oj].pid);
            }
            assert forall|j: int|
                #![trigger self.procs@[j]]
                0 <= j < self.procs@.len() && self.procs@[j].pid > 0 implies self.procs@[j].pid
                    <= PID_MAX && self.pids.bitmap@[self.procs@[j].pid as int] by {
                let oj = if j < idx { j } else { j + 1 };
                assert(ps[oj].pid != ps[idx as int].pid);
                assert(old(self).pids.bitmap@[ps[oj].pid as int]);
            }
        }
        0
    }

    /// Makes process `idx` the leader of a new session with a new process
    /// group holding only it, both with its id; returns 0.
    pub fn session_new(&mut self, idx: usize) -> (r: isize)
        requires
            idx < old(self).procs.len(),
            old(self).pgroups.len() < usize::MAX,
            old(self).sessions.len() < usize::MAX,
        ensures
            r == 0,
            ({
                let pid = old(self).procs@[idx as int].pid;
                let s = old(self).sessions.len() as int;
                let g = old(self).pgroups.len() as int;
                &&& final(self).sessions@.len() == s + 1
                &&& final(self).sessions@.take(s) == old(self).sessions@
                &&& final(self).sessions@[s].sid == pid
                &&& final(self).sessions@[s].leader == pid
                &&& final(self).sessions@[s].pgps@ == seq![g as usize]
                &&& final(self).sessions@[s].ctty is None
                &&& final(self).pgroups@.len() == g + 1
                &&& final(self).pgroups@.take(g) == old(self).pgroups@
                &&& final(self).pgroups@[g].pgid == pid
                &&& final(self).pgroups@[g].leader == pid
                &&& final(self).pgroups@[g].session == s
                &&& final(self).pgroups@[g].procs@ == seq![pid]
                &&& final(self).procs@ == old(self).procs@.update(
                    idx as int,
                    Process { pgrp: g as usize, ..old(self).procs@[idx as int] },
                )
            }),
            final(self).pids == old(self).pids,
    {
        let pid = self.procs[idx].pid;
        let s = self.sessions.len();
        let g = self.pgroups.len();
        self.sessions.push(Session { sid: pid, pgps: vec![g], leader: pid, ctty: None });
        self.pgroups.push(ProcessGroup { pgid: pid, session: s, procs: vec![pid], leader: pid });
        self.procs[idx].pgrp = g;
        proof {
            assert(self.sessions@.take(s as int) =~= old(self).sessions@);
            assert(self.pgroups@.take(g as int) =~= old(self).pgroups@);
        }
        0
    }

    /// Moves process `idx` out of its process group into a new group of
    /// its own, with its id, in the same session; returns 0.
    pub fn pgrp_new(&mut self, idx: usize) -> (r: isize)
        requires
            idx < old(self).procs.len(),
            old(self).procs@[idx as int].pgrp < old(self).pgroups.len(),
            old(self).pgroups@[old(self).procs@[idx as int].pgrp as int].session < old(self).sessions.len(),
            old(self).pgroups.len() < usize::MAX,
        ensures
            r == 0,
            ({
                let p = old(self).procs@[idx as int];
                let og = p.pgrp as int;
                let s = old(self).pgroups@[og].session as int;
                let g = old(self).pgroups.len() as int;
                &&& final(self).pgroups@.len() == g + 1
                &&& forall|j: int|
                    0 <= j < g && j != og ==> #[trigger] final(self).pgroups@[j] == old(self).pgroups@[j]
                &&& final(self).pgroups@[og].procs@ == remove_first(
                    old(self).pgroups@[og].procs@,
                    p.pid,
                )
                &&& final(self).pgroups@[og].pgid == old(self).pgroups@[og].pgid
                &&& final(self).pgroups@[og].session == old(self).pgroups@[og].session
                &&& final(self).pgroups@[g].pgid == p.pid
                &&& final(self).pgroups@[g].leader == p.pid
                &&& final(self).pgroups@[g].session == s
                &&& final(self).pgroups@[g].procs@ == seq![p.pid]
                &&& final(self).sessions@.len() == old(self).sessions@.len()
                &&& forall|j: int|
                    0 <= j < old(self).sessions@.len() && j != s ==> #[trigger] final(self).sessions@[j] == old(self).sessions@[j]
                &&& final(self).sessions@[s].pgps@ == old(self).sessions@[s].pgps@.push(
                    g as usize,
                )
                &&& final(self).procs@ == old(self).procs@.update(
                    idx as int,
                    Process { pgrp: g as usize, ..p },
                )
            }),
    {
        let pid = self.procs[idx].pid;
        let og = self.procs[idx].pgrp;
        let s = self.pgroups[og].session;
        let g = self.pgroups.len();
        vec_remove_first(&mut self.pgroups[og].procs, pid);
        self.pgroups.push(ProcessGroup { pgid: pid, session: s, procs: vec![pid], leader: pid });
        self.sessions[s].pgps.push(g);
        self.procs[idx].pgrp = g;
        0
    }

    /// Sends `signal` to process `idx`, the current process being `cur`.
    ///
    /// The current process handles it at once; any other process has it
    /// queued, and when its main thread sleeps interruptibly, that thread's
    /// sleep queue is to be woken.
    pub fn signal_proc_send(&mut self, idx: usize, signal: isize, cur: usize) -> (r: SigDelivery)
        requires
            idx < old(self).procs.len(),
            idx != cur ==> old(self).procs@[idx as int].sig_queue is Some,
            idx != cur ==> old(self).procs@[idx as int].threads@.len() > 0,
        ensures
            idx == cur ==> r == SigDelivery::Handle && final(self).procs@ == old(self).procs@,
            idx != cur ==> ({
                let p = old(self).procs@[idx as int];
                let t = p.threads@[0];
                &&& r == (SigDelivery::Queued {
                    wake: if t.state == ThreadState::ISLEEP { t.sleep_queue } else { None },
                })
                &&& final(self).procs@.len() == old(self).procs@.len()
                &&& forall|j: int|
                    0 <= j < old(self).procs@.len() && j != idx ==> #[trigger] final(self).procs@[j] == old(self).procs@[j]
                &&& final(self).procs@[idx as int].sig_queue matches Some(q) && q@
                    == p.sig_queue.unwrap()@.push(signal)
                &&& final(self).procs@[idx as int] == (Process {
                    sig_queue: final(self).procs@[idx as int].sig_queue,
                    ..p
                })
                &&& final(self).procs@[idx as int].pid == p.pid
                &&& final(self).procs@[idx as int].threads@ == p.threads@
            }),
            final(self).pgroups == old(self).pgroups,
            final(self).sessions == old(self).sessions,
            final(self).pids == old(self).pids,
            final(self).mm == old(self).mm,
    {
        if idx == cur {
            return SigDelivery::Handle;
        }
        let mut q = self.procs[idx].sig_queue.take().unwrap();
        q.push(signal);
        self.procs[idx].sig_queue = Some(q);
        let t = self.procs[idx].threads[0];
        let wake = if t.state == ThreadState::ISLEEP {
            t.sleep_queue
        } else {
            None
        };
        SigDelivery::Queued { wake }
    }

    /// Sends `signal` to the process with id `pid` from the current process
    /// `cur`: `-ESRCH` when there is none.
    pub fn signal_send(&mut self, cur: usize, pid: isize, signal: isize) -> (r: Result<
        SigDelivery,
        isize,
    >)
        requires
            cur < old(self).procs.len(),
            forall|j: int|
                0 <= j < old(self).procs@.len() && old(self).procs@[j].pid == pid && j != cur
                    ==> (old(self).procs@[j].sig_queue is Some) && #[trigger] old(self).procs@[j].threads@.len() > 0,
        ensures
            old(self).procs@[cur as int].pid == pid ==> r == Ok::<SigDelivery, isize>(
                SigDelivery::Handle,
            ) && final(self).procs@ == old(self).procs@,
            old(self).procs@[cur as int].pid != pid && find_pid(old(self).procs@, pid, 0) == old(self).procs.len() ==> (r matches Err(e) && e == -ESRCH) && final(self).procs@ == old(self).procs@,
            old(self).procs@[cur as int].pid != pid && find_pid(old(self).procs@, pid, 0) < old(self).procs.len() ==> ({
                let k = find_pid(old(self).procs@, pid, 0);
                let p = old(self).procs@[k];
                &&& r matches Ok(d) && d == (SigDelivery::Queued {
                    wake: if p.threads@[0].state == ThreadState::ISLEEP {
                        p.threads@[0].sleep_queue
                    } else {
                        None
                    },
                })
                &&& final(self).procs@[k].sig_queue matches Some(q) && q@
                    == p.sig_queue.unwrap()@.push(signal)
            }),
    {
        if self.procs[cur].pid == pid {
            return Ok(SigDelivery::Handle);
        }
        match self.proc_pid_find(pid) {
            None => Err(-ESRCH),
            Some(k) => {
                proof {
                    lemma_find_pid(self.procs@, pid, 0);
                    assert(self.procs@[k as int].threads@.len() > 0);
                }
                Ok(self.signal_proc_send(k, signal, cur))
            },
        }
    }

    /// Kills process `idx`, the current process being `cur` and its
    /// thread, if it is one of the killed process's, having id `cur_tid`.
    ///
    /// The process dies and stays in the table for its parent to reap, the
    /// parent's waiting threads waking and the parent being sent `SIGCHLD`;
    /// without a parent it is reaped at once. `kill_done` says all it does.
    pub fn proc_kill(&mut self, sched: &mut Scheduler, idx: usize, cur: usize, cur_tid: Option<isize>) -> (o: KillOutcome)
        requires
            idx < old(self).procs.len(),
            old(self).procs@[idx as int].pid != 1,
            old(self).procs@[idx as int].sig_queue is Some,
            old(self).procs@[idx as int].pgrp < old(self).pgroups.len(),
            old(self).pids_ok(),
            old(self).procs@[idx as int].parent is None ==> 0 <= old(self).procs@[idx as int].pid
                <= PID_MAX,
            old(self).procs@[idx as int].parent matches Some(pp) ==> ({
                let kp = find_pid(old(self).procs@, pp, 0);
                &&& kp < old(self).procs.len()
                &&& kp != idx
                &&& kp != cur ==> old(self).procs@[kp].sig_queue is Some
                    && old(self).procs@[kp].threads@.len() > 0
            }),
            regions_releasable(old(self).mm, old(self).procs@[idx as int].vm_space.vm_entries@),
        ensures
            kill_done(
                old(self).procs@,
                old(self).pgroups@,
                old(self).pids,
                old(self).mm,
                *final(self),
                *old(sched),
                *final(sched),
                idx as int,
                cur as int,
                cur_tid,
                o,
            ),
            final(self).sessions == old(self).sessions,
    {
        let ghost p0 = self.procs@[idx as int];
        let ghost n = self.procs@.len();
        let pid = self.procs[idx].pid;
        self.procs[idx].running = 0;
        let mut threads: Vec<Thread> = Vec::new();
        std::mem::swap(&mut threads, &mut self.procs[idx].threads);
        sched.unqueue_proc(pid);
        let ghost s1 = *sched;
        let mut kill_current = false;
        let mut k: usize = 0;
        while k < threads.len()
            invariant
                k <= threads.len(),
                kill_current == (exists|j: int|
                    0 <= j < k && cur_tid == Some(#[trigger] threads@[j].tid)),
            decreases threads.len() - k,
        {
            match cur_tid {
                Some(t) => {
                    if threads[k].tid == t {
                        kill_current = true;
                    }
                },
                None => {},
            }
            k = k + 1;
        }
        let pmap = self.procs[idx].vm_space.pmap;
        let mut space = VmSpace { pmap, vm_entries: Vec::new() };
        std::mem::swap(&mut space.vm_entries, &mut self.procs[idx].vm_space.vm_entries);
        let freed = space.destroy(&mut self.mm);
        let ghost m1 = self.mm;
        self.procs[idx].fds = Vec::new();
        self.procs[idx].cwd = Vec::new();
        self.procs[idx].sig_queue = None;
        self.procs[idx].name = Vec::new();
        proof {
            assert forall|i: int| 0 <= i < n && i != idx implies #[trigger] self.procs@[i] == old(self).procs@[i] by {}
        }
        let mut j: usize = 0;
        while j < self.procs.len()
            invariant
                self.procs@.len() == n,
                j <= n,
                idx < n,
                pid == p0.pid,
                p0 == old(self).procs@[idx as int],
                self.procs@[idx as int].pid == p0.pid,
                self.procs@[idx as int].parent == p0.parent,
                self.procs@[idx as int].exit == p0.exit,
                dead_process(self.procs@[idx as int]),
                self.procs@[idx as int].pgrp == p0.pgrp,
                self.pgroups == old(self).pgroups,
                self.sessions == old(self).sessions,
                self.pids == old(self).pids,
                self.mm == m1,
                forall|i: int|
                    0 <= i < j && i != idx ==> #[trigger] self.procs@[i] == orphaned(old(self).procs@[i], pid),
                forall|i: int|
                    j <= i < n && i != idx ==> #[trigger] self.procs@[i] == old(self).procs@[i],
            decreases n - j,
        {
            let is_child = match self.procs[j].parent {
                Some(pp) => pp == pid,
                None => false,
            };
            if j != idx && is_child {
                self.procs[j].parent = None;
            }
            j = j + 1;
        }
        let ghost mid = self.procs@;
        proof {
            assert forall|i: int| 0 <= i < n implies #[trigger] mid[i].pid == old(self).procs@[i].pid by {
                if i != idx {
                    assert(mid[i] == orphaned(old(self).procs@[i], pid));
                }
            }
        }
        let g = self.procs[idx].pgrp;
        vec_remove_first(&mut self.pgroups[g].procs, pid);
        let parent = self.procs[idx].parent;
        let mut sigchld: Option<SigDelivery> = None;
        match parent {
            Some(pp) => {
                proof {
                    lemma_find_pid_same(self.procs@, old(self).procs@, pp, 0);
                    lemma_find_pid(old(self).procs@, pp, 0);
                }
                match self.proc_pid_find(pp) {
                    Some(kp) => {
                        proof {
                            assert(self.procs@[kp as int] == orphaned(old(self).procs@[kp as int], pid));
                        }
                        let wq = self.procs[kp].wait_queue;
                        sched.thread_queue_wakeup(wq);
                        sigchld = Some(self.signal_proc_send(kp, SIGCHLD, cur));
                        proof {
                            assert forall|i: int| 0 <= i < n implies #[trigger] old(self).procs@[i].pid
                                == self.procs@[i].pid by {
                                assert(mid[i].pid == old(self).procs@[i].pid);
                                if i != kp {
                                    assert(self.procs@[i] == mid[i]);
                                }
                            }
                            lemma_pids_hold_same(old(self).procs@, self.procs@, self.pids);
                        }
                    },
                    None => {},
                }
            },
            None => {
                proof {
                    assert forall|i: int| 0 <= i < n implies #[trigger] old(self).procs@[i].pid
                        == self.procs@[i].pid by {
                        assert(mid[i].pid == old(self).procs@[i].pid);
                    }
                    lemma_pids_hold_same(old(self).procs@, self.procs@, self.pids);
                }
                self.proc_reap(idx);
            },
        }
        let o = KillOutcome { threads, kill_current, freed, pmap, sigchld };
        // The parts of `kill_done` the solver needs spelled out: the queues,
        // the untouched groups, and the table with and without a parent.
        proof {
            let ps = old(self).procs@;
            let p = p0;
            let kp = find_pid(ps, p.parent.unwrap(), 0);
            let wq = ps[kp].wait_queue as int;
            let woken = p.parent is Some && wq < old(sched).queues@.len();
            assert(sched.ready@ == queue_without(old(sched).ready@, p.pid) + (if woken {
                queue_without(old(sched).queues@[wq]@, p.pid)
            } else {
                seq![]
            }));
            assert(forall|q: int|
                0 <= q < old(sched).queues@.len() ==> (#[trigger] sched.queues@[q])@ == (if woken && q == wq {
                    seq![]
                } else {
                    queue_without(old(sched).queues@[q]@, p.pid)
                }));
            assert(forall|x: int|
                0 <= x < old(self).pgroups@.len() && x != p.pgrp ==> #[trigger] self.pgroups@[x] == old(self).pgroups@[x]);
            assert(p.parent is None ==> {
                &&& o.sigchld is None
                &&& self.procs@.len() == n - 1
                &&& forall|j: int|
                    0 <= j < n - 1 ==> #[trigger] self.procs@[j] == orphaned(
                        ps[if j < idx {
                            j
                        } else {
                            j + 1
                        }],
                        p.pid,
                    )
            });
            assert(p.parent is Some ==> forall|j: int|
                0 <= j < n && j != idx && j != kp ==> #[trigger] self.procs@[j] == orphaned(ps[j], p.pid));
            assert(p.parent is Some ==> kp != cur ==> self.procs@[kp] == (Process {
                sig_queue: self.procs@[kp].sig_queue,
                ..orphaned(ps[kp], p.pid)
            }));
        }
        o
    }

    /// Forks process `parent` into a new process with physical map `pmap`.
    ///
    /// The child gets a new id, which no process in the table holds,
    /// `parent` as its parent, one thread marked spawned, copies of the
    /// parent's name, working directory, file descriptors, regions, process
    /// group, creation mask, user and group, heap, entry point and signal
    /// actions, an empty signal queue, and the heap and stack regions at the
    /// parent's positions; it joins the parent's process group and goes
    /// last in the table.
    pub fn proc_fork(&mut self, parent: usize, pmap: usize) -> (o: ForkOutcome)
        requires
            parent < old(self).procs.len(),
            old(self).procs.len() < usize::MAX,
            old(self).pids_ok(),
            old(self).procs@[parent as int].pgrp < old(self).pgroups.len(),
            ({
                let es = old(self).procs@[parent as int].vm_space.vm_entries@;
                &&& handles_in(es, old(self).mm.anons@.len() as int, old(self).mm.objects@.len() as int)
                &&& forall|x: int|
                    0 <= x < old(self).mm.anons@.len() ==> #[trigger] old(self).mm.anons@[x].refcnt
                        + count_anon(es, x) <= usize::MAX
                &&& forall|x: int|
                    0 <= x < old(self).mm.objects@.len() ==> #[trigger] old(self).mm.objects@[x].refcnt
                        + count_object(es, x) <= usize::MAX
            }),
        ensures
            ({
                let ps = old(self).procs@;
                let p = ps[parent as int];
                let n = ps.len();
                let np = first_free_from(old(self).pids.bitmap@, old(self).pids.ff_pid as int, PID_MAX as int);
                let c = final(self).procs@[n as int];
                &&& o.child == n
                &&& final(self).procs@.len() == n + 1
                &&& final(self).procs@.take(n as int) == ps
                &&& o.pid == (if np < PID_MAX { np } else { -1 })
                &&& final(self).pids_ok()
                &&& o.pid > 0 ==> forall|j: int| 0 <= j < n ==> #[trigger] ps[j].pid != o.pid
                &&& c.pid == o.pid
                &&& c.parent == Some(p.pid)
                &&& c.running == 1
                &&& c.threads@ == seq![Thread { spawned: 1, ..Thread::spec_new(1, o.pid) }]
                &&& c.name@ == p.name@
                &&& c.cwd@ == p.cwd@
                &&& c.fds@ == p.fds@
                &&& o.refs@ == fd_refs(p.fds@)
                &&& c.sig_queue matches Some(q) && q@.len() == 0
                &&& c.pgrp == p.pgrp
                &&& c.mask == p.mask
                &&& c.uid == p.uid
                &&& c.gid == p.gid
                &&& c.heap_start == p.heap_start
                &&& c.heap == p.heap
                &&& c.entry == p.entry
                &&& c.sigaction@ == p.sigaction@
                &&& c.vm_space.pmap == pmap
                &&& c.vm_space.vm_entries@ == p.vm_space.vm_entries@
                &&& c.heap_vm == p.heap_vm
                &&& c.stack_vm == p.stack_vm
                &&& c.exit == 0
                &&& c.wait_queue == 0
                &&& o.protects@ == fork_protects(p.vm_space.vm_entries@)
                &&& final(self).mm.anons@.len() == old(self).mm.anons@.len()
                &&& forall|x: int|
                    0 <= x < old(self).mm.anons@.len() ==> forked_anon_ok(
                        #[trigger] final(self).mm.anons@[x],
                        old(self).mm.anons@[x],
                        p.vm_space.vm_entries@,
                        x,
                    )
                &&& final(self).mm.arefs == old(self).mm.arefs
                &&& final(self).mm.pages == old(self).mm.pages
                &&& final(self).mm.buddy == old(self).mm.buddy
                &&& final(self).mm.objects@.len() == old(self).mm.objects@.len()
                &&& forall|x: int|
                    0 <= x < old(self).mm.objects@.len() ==> forked_object_ok(
                        #[trigger] final(self).mm.objects@[x],
                        old(self).mm.objects@[x],
                        p.vm_space.vm_entries@,
                        x,
                    )
                &&& final(self).pgroups@.len() == old(self).pgroups@.len()
                &&& final(self).pgroups@[p.pgrp as int].procs@ == old(self).pgroups@[p.pgrp as int].procs@.push(o.pid)
                &&& forall|j: int|
                    0 <= j < old(self).pgroups@.len() && j != p.pgrp ==> #[trigger] final(self).pgroups@[j] == old(self).pgroups@[j]
                &&& final(self).sessions == old(self).sessions
            }),
    {
        let mut child = Process::new_zeroed();
        child.new_thread();
        child.vm_space.pmap = pmap;
        child.running = 1;
        fork_proc_copy(&self.procs[parent], &mut child);
        child.name = copy_bytes(&self.procs[parent].name);
        proof {
            lemma_first_free_from(self.pids.bitmap@, self.pids.ff_pid as int, PID_MAX as int);
        }
        let pid = self.pids.proc_pid_alloc();
        child.pid = pid;
        child.threads[0].owner = pid;
        child.parent = Some(self.procs[parent].pid);
        child.threads[0].spawned = 1;
        child.cwd = copy_bytes(&self.procs[parent].cwd);
        child.sig_queue = Some(Vec::new());
        let refs = copy_fds(&self.procs[parent], &mut child);
        let protects = self.procs[parent].vm_space.fork(
            &mut child.vm_space,
            &mut self.mm.anons,
            &mut self.mm.objects,
        );
        child.heap_vm = self.procs[parent].heap_vm;
        child.stack_vm = self.procs[parent].stack_vm;
        let g = self.procs[parent].pgrp;
        self.pgroups[g].procs.push(pid);
        let n = self.procs.len();
        self.procs.push(child);
        proof {
            assert(self.procs@.take(n as int) =~= old(self).procs@);
            let ps = old(self).procs@;
            assert forall|j: int| 0 <= j < n implies #[trigger] self.procs@[j] == ps[j] by {
                assert(self.procs@.take(n as int)[j] == self.procs@[j]);
            }
            assert forall|j: int| 0 <= j < n && pid > 0 implies #[trigger] ps[j].pid != pid by {
                if ps[j].pid > 0 {
                    assert(old(self).pids.bitmap@[ps[j].pid as int]);
                }
            }
        }
        ForkOutcome { child: n, pid, refs, protects }
    }

    /// Ends the current process `cur` with exit code `code`: its exit
    /// status becomes `code` in the second byte, then it is killed as
    /// `proc_kill` does, its current thread having id `cur_tid`.
    pub fn sys_exit(&mut self, sched: &mut Scheduler, cur: usize, code: isize, cur_tid: Option<isize>) -> (o: KillOutcome)
        requires
            cur < old(self).procs.len(),
            old(self).procs@[cur as int].pid != 1,
            old(self).procs@[cur as int].sig_queue is Some,
            old(self).procs@[cur as int].pgrp < old(self).pgroups.len(),
            old(self).pids_ok(),
            old(self).procs@[cur as int].parent is None ==> 0 <= old(self).procs@[cur as int].pid
                <= PID_MAX,
            old(self).procs@[cur as int].parent matches Some(pp) ==> ({
                let kp = find_pid(old(self).procs@, pp, 0);
                &&& kp < old(self).procs.len()
                &&& kp != cur
                &&& old(self).procs@[kp].sig_queue is Some
                &&& old(self).procs@[kp].threads@.len() > 0
            }),
            regions_releasable(old(self).mm, old(self).procs@[cur as int].vm_space.vm_entries@),
        ensures
            kill_done(
                old(self).procs@.update(
                    cur as int,
                    Process {
                        exit: ((code & 0xff) * 256) as isize,
                        ..old(self).procs@[cur as int]
                    },
                ),
                old(self).pgroups@,
                old(self).pids,
                old(self).mm,
                *final(self),
                *old(sched),
                *final(sched),
                cur as int,
                cur as int,
                cur_tid,
                o,
            ),
            final(self).sessions == old(self).sessions,
    {
        assert(0isize & 0xff == 0) by (bit_vector);
        let ex = proc_exit(code, 0);
        self.procs[cur].exit = ex;
        proof {
            assert(self.procs@ == old(self).procs@.update(
                cur as int,
                Process { exit: ((code & 0xff) * 256) as isize, ..old(self).procs@[cur as int] },
            ));
            lemma_pids_hold_same(old(self).procs@, self.procs@, self.pids);
            match old(self).procs@[cur as int].parent {
                Some(pp) => {
                    lemma_find_pid_same(self.procs@, old(self).procs@, pp, 0);
                    lemma_find_pid(old(self).procs@, pp, 0);
                    let kp = find_pid(old(self).procs@, pp, 0);
                    assert(self.procs@[kp] == old(self).procs@[kp]);
                    assert(self.procs@[cur as int].parent == Some(pp));
                },
                None => {},
            }
        }
        self.proc_kill(sched, cur, cur, cur_tid)
    }

    /// Sends `signal` to every process of process group `g`, in the group's
    /// order, the current process being `cur`; returns how each was
    /// delivered.
    pub fn signal_pgrp_send(&mut self, g: usize, signal: isize, cur: usize) -> (r: Vec<SigDelivery>)
        requires
            g < old(self).pgroups.len(),
            forall|i: int|
                0 <= i < old(self).pgroups@[g as int].procs@.len() ==> find_pid(
                    old(self).procs@,
                    #[trigger] old(self).pgroups@[g as int].procs@[i],
                    0,
                ) < old(self).procs.len(),
            forall|j: int|
                #![trigger old(self).procs@[j]]
                0 <= j < old(self).procs@.len() && j != cur ==> (old(self).procs@[j].sig_queue is Some)
                    && old(self).procs@[j].threads@.len() > 0,
        ensures
            r@.len() == old(self).pgroups@[g as int].procs@.len(),
            final(self).procs@.len() == old(self).procs@.len(),
            forall|j: int|
                0 <= j < old(self).procs@.len() ==> #[trigger] final(self).procs@[j].pid == old(self).procs@[j].pid
                    && final(self).procs@[j].threads@ == old(self).procs@[j].threads@,
            forall|i: int|
                0 <= i < r@.len() ==> {
                    let k = find_pid(old(self).procs@, old(self).pgroups@[g as int].procs@[i], 0);
                    let t = old(self).procs@[k].threads@[0];
                    #[trigger] r@[i] == if k == cur {
                        SigDelivery::Handle
                    } else {
                        SigDelivery::Queued {
                            wake: if t.state == ThreadState::ISLEEP { t.sleep_queue } else { None },
                        }
                    }
                },
    {
        let mut r: Vec<SigDelivery> = Vec::new();
        let n = self.pgroups[g].procs.len();
        let mut i: usize = 0;
        proof {
            assert forall|j: int| 0 <= j < self.procs@.len() && j != cur implies #[trigger] self.procs@[j].threads@.len() > 0 by {
                assert(old(self).procs@[j].threads@.len() > 0);
            }
            assert forall|j: int| 0 <= j < self.procs@.len() && j != cur implies (#[trigger] self.procs@[j].sig_queue) is Some by {
                assert(old(self).procs@[j].sig_queue is Some);
            }
        }
        while i < n
            invariant
                i <= n,
                g < self.pgroups.len(),
                self.pgroups == old(self).pgroups,
                n == self.pgroups@[g as int].procs@.len(),
                self.procs@.len() == old(self).procs@.len(),
                forall|j: int|
                    0 <= j < old(self).procs@.len() ==> #[trigger] self.procs@[j].pid == old(self).procs@[j].pid
                        && self.procs@[j].threads@ == old(self).procs@[j].threads@,
                forall|j: int|
                    0 <= j < self.procs@.len() && j != cur ==> #[trigger] self.procs@[j].threads@.len() > 0,
                forall|j: int|
                    0 <= j < self.procs@.len() && j != cur ==> (#[trigger] self.procs@[j].sig_queue) is Some,
                forall|q: int|
                    0 <= q < n ==> find_pid(
                        old(self).procs@,
                        #[trigger] old(self).pgroups@[g as int].procs@[q],
                        0,
                    ) < old(self).procs.len(),
                r@.len() == i,
                forall|q: int|
                    0 <= q < i ==> {
                        let k = find_pid(old(self).procs@, old(self).pgroups@[g as int].procs@[q], 0);
                        let t = old(self).procs@[k].threads@[0];
                        #[trigger] r@[q] == if k == cur {
                            SigDelivery::Handle
                        } else {
                            SigDelivery::Queued {
                                wake: if t.state == ThreadState::ISLEEP { t.sleep_queue } else { None },
                            }
                        }
                    },
            decreases n - i,
        {
            let pid = self.pgroups[g].procs[i];
            let ghost before = self.procs@;
            proof {
                assert(find_pid(before, pid, 0) == find_pid(old(self).procs@, pid, 0)) by {
                    lemma_find_pid_same(before, old(self).procs@, pid, 0);
                }
                lemma_find_pid(before, pid, 0);
            }
            match self.proc_pid_find(pid) {
                Some(k) => {
                    proof {
                        assert(self.procs@[k as int].threads@ == old(self).procs@[k as int].threads@);
                        if k != cur {
                            assert(self.procs@[k as int].threads@.len() > 0);
                        }
                    }
                    let d = self.signal_proc_send(k, signal, cur);
                    r.push(d);
                    proof {
                        assert forall|j: int| 0 <= j < old(self).procs@.len() && j != k as int implies #[trigger] self.procs@[j]
                            == before[j] by {}
                        assert forall|j: int| 0 <= j < old(self).procs@.len() implies #[trigger] self.procs@[j].pid
                            == old(self).procs@[j].pid && self.procs@[j].threads@ == old(self).procs@[j].threads@ by {
                            if j != k as int {
                                assert(self.procs@[j] == before[j]);
                            }
                            assert(before[j].pid == old(self).procs@[j].pid);
                        }
                        assert forall|j: int| 0 <= j < self.procs@.len() && j != cur implies #[trigger] self.procs@[j].threads@.len() > 0 by {
                            if j != k as int {
                                assert(self.procs@[j] == before[j]);
                            }
                        }
                        assert forall|j: int| 0 <= j < self.procs@.len() && j != cur implies (#[trigger] self.procs@[j].sig_queue) is Some by {
                            if j != k as int {
                                assert(self.procs@[j] == before[j]);
                            }
                        }
                    }
                },
                None => {},
            }
            i = i + 1;
        }
        r
    }

    /// Waits for a child of the current process `cur`, as `waitpid_done`
    /// says; after a sleep, `sys_waitpid_woken` goes on.
    pub fn sys_waitpid(&mut self, cur: usize, pid: isize, options: usize) -> (r: WaitOutcome)
        requires
            cur < old(self).procs.len(),
            pid == -1 || pid > 0,
            old(self).pids_ok(),
            forall|j: int|
                0 <= j < old(self).procs@.len() ==> 0 <= #[trigger] old(self).procs@[j].pid
                    <= PID_MAX,
        ensures
            waitpid_done(old(self).procs@, old(self).pids, *final(self), cur as int, pid, options, r),
            final(self).pgroups == old(self).pgroups,
            final(self).sessions == old(self).sessions,
            final(self).mm == old(self).mm,
    {
        let me = self.procs[cur].pid;
        if pid == -1 {
            let mut found = false;
            let mut i: usize = 0;
            proof {
                lemma_first_child(self.procs@, me, 0);
            }
            while i < self.procs.len()
                invariant
                    pid == -1,
                    self.procs@ == old(self).procs@,
                    self.pids == old(self).pids,
                    self.pids_ok(),
                    self.pgroups == old(self).pgroups,
                    self.sessions == old(self).sessions,
                    self.mm == old(self).mm,
                    forall|j: int|
                        0 <= j < self.procs@.len() ==> 0 <= #[trigger] self.procs@[j].pid
                            <= PID_MAX,
                    i <= self.procs.len(),
                    me == self.procs@[cur as int].pid,
                    first_dead_child(self.procs@, me, 0) == first_dead_child(
                        self.procs@,
                        me,
                        i as int,
                    ),
                    found == (first_child(self.procs@, me, 0) < i),
                    first_child(self.procs@, me, 0) < i || first_child(self.procs@, me, 0)
                        == first_child(self.procs@, me, i as int),
                decreases self.procs.len() - i,
            {
                proof {
                    lemma_first_child(self.procs@, me, i as int);
                    lemma_first_child(self.procs@, me, i as int + 1);
                }
                let is_child = match self.procs[i].parent {
                    Some(pp) => pp == me,
                    None => false,
                };
                if is_child {
                    found = true;
                    if self.procs[i].running == 0 {
                        let status = self.procs[i].exit;
                        let cpid = self.procs[i].pid;
                        self.proc_reap(i);
                        return WaitOutcome::Reaped { pid: cpid, status };
                    }
                }
                i = i + 1;
            }
            proof {
                lemma_first_child(self.procs@, me, 0);
            }
            if options & WNOHANG != 0 {
                return WaitOutcome::Return(
                    if found {
                        0
                    } else {
                        -ECHILD
                    },
                );
            }
            WaitOutcome::Sleep
        } else {
            match self.proc_pid_find(pid) {
                None => WaitOutcome::Return(-ECHILD),
                Some(k) => {
                    let is_child = match self.procs[k].parent {
                        Some(pp) => pp == me,
                        None => false,
                    };
                    if !is_child {
                        return WaitOutcome::Return(-ECHILD);
                    }
                    if self.procs[k].running == 0 {
                        let status = self.procs[k].exit;
                        let cpid = self.procs[k].pid;
                        self.proc_reap(k);
                        return WaitOutcome::Reaped { pid: cpid, status };
                    }
                    WaitOutcome::Sleep
                },
            }
        }
    }

    /// Goes on with `waitpid` after the caller slept on its wait queue,
    /// `woken` being what the sleep returned: a sleep a signal interrupted
    /// (not 0) ends the call with `-EINTR`, nothing changed; otherwise the
    /// wait is tried again as `sys_waitpid` does.
    pub fn sys_waitpid_woken(&mut self, cur: usize, pid: isize, options: usize, woken: isize) -> (r: WaitOutcome)
        requires
            cur < old(self).procs.len(),
            pid == -1 || pid > 0,
            old(self).pids_ok(),
            forall|j: int|
                0 <= j < old(self).procs@.len() ==> 0 <= #[trigger] old(self).procs@[j].pid
                    <= PID_MAX,
        ensures
            woken != 0 ==> (r matches WaitOutcome::Return(v) && v == -EINTR) && *final(self) == *old(self),
            woken == 0 ==> waitpid_done(old(self).procs@, old(self).pids, *final(self), cur as int, pid, options, r),
            final(self).pgroups == old(self).pgroups,
            final(self).sessions == old(self).sessions,
            final(self).mm == old(self).mm,
    {
        if woken != 0 {
            return WaitOutcome::Return(-EINTR);
        }
        self.sys_waitpid(cur, pid, options)
    }
}

} // verus!
