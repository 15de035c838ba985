use aquila::buddy::BuddyAllocator;
use aquila::fault::Mm;
use aquila::pages::PageTable;
use aquila::proc::Kernel;
use aquila::process::PidMap;
use aquila::sched::{sched_thread_spawn, thread_queue_woken, Scheduler, ThreadRef};
use aquila::thread::{Thread, ThreadState};

fn kernel() -> Kernel {
    Kernel {
        procs: vec![],
        pgroups: vec![],
        sessions: vec![],
        pids: PidMap::new(),
        mm: Mm {
            buddy: BuddyAllocator::buddy_setup(0x2000000, 0x100000, 0x200000),
            pages: PageTable::new(0x2000),
            anons: vec![],
            arefs: vec![],
            objects: vec![],
        },
    }
}

fn r(pid: isize, tid: isize) -> ThreadRef {
    ThreadRef { pid, tid }
}

#[test]
fn scheduler_starts_empty() {
    let s = Scheduler::new(3);
    assert!(s.ready.is_empty());
    assert_eq!(s.queues.len(), 3);
    assert!(s.queues.iter().all(|q| q.is_empty()));
    assert_eq!(s.current, None);
    assert_eq!(s.kidle, 0);
}

#[test]
fn schedule_round_robin() {
    let mut s = Scheduler::new(1);
    s.current = Some(r(1, 1));
    s.sched_thread_ready(r(2, 1));
    s.sched_thread_ready(r(3, 1));
    assert_eq!(s.schedule(), Some(r(2, 1)));
    assert_eq!(s.ready, vec![r(3, 1), r(1, 1)]);
    assert_eq!(s.current, Some(r(2, 1)));
    assert_eq!(s.schedule(), Some(r(3, 1)));
    assert_eq!(s.schedule(), Some(r(1, 1)));
    assert_eq!(s.ready, vec![r(2, 1), r(3, 1)]);
}

#[test]
fn schedule_alone_runs_again_and_idles() {
    let mut s = Scheduler::new(1);
    s.current = Some(r(1, 1));
    assert_eq!(s.schedule(), Some(r(1, 1)));
    assert!(s.ready.is_empty());
    s.kernel_idle();
    assert_eq!(s.schedule(), None);
    assert_eq!(s.kidle, 1);
    s.sched_thread_ready(r(4, 2));
    assert_eq!(s.schedule(), Some(r(4, 2)));
    assert_eq!(s.kidle, 0);
    assert!(s.ready.is_empty());
}

#[test]
fn sleep_and_wakeup() {
    let mut s = Scheduler::new(2);
    s.current = Some(r(1, 1));
    let mut t = Thread::new(1, 1);
    s.thread_queue_sleep(1, &mut t);
    assert_eq!(t.state, ThreadState::ISLEEP);
    assert_eq!(t.sleep_queue, Some(1));
    assert_eq!(s.queues[1], vec![r(1, 1)]);
    s.current = Some(r(2, 1));
    let mut u = Thread::new(1, 2);
    s.thread_queue_sleep(1, &mut u);
    s.sched_thread_ready(r(5, 1));
    assert_eq!(s.thread_queue_wakeup(1), 0);
    assert_eq!(s.ready, vec![r(5, 1), r(1, 1), r(2, 1)]);
    assert!(s.queues[1].is_empty());
    assert_eq!(s.thread_queue_wakeup(7), -1);
    assert_eq!(thread_queue_woken(&mut t), 0);
    assert_eq!(t.state, ThreadState::RUNNABLE);
    assert_eq!(thread_queue_woken(&mut t), -1);
}

#[test]
fn unqueue_dead_process() {
    let mut s = Scheduler::new(2);
    s.ready = vec![r(1, 1), r(2, 1), r(1, 2)];
    s.queues[0] = vec![r(2, 2), r(1, 3)];
    s.unqueue_proc(1);
    assert_eq!(s.ready, vec![r(2, 1)]);
    assert_eq!(s.queues[0], vec![r(2, 2)]);
    assert!(s.queues[1].is_empty());
}

#[test]
fn spawn_marks_started() {
    let mut t = Thread::new(3, 9);
    sched_thread_spawn(&mut t);
    assert_eq!(t.spawned, 1);
    assert_eq!(t.tid, 3);
}

#[test]
fn init_spawn_and_threads() {
    let mut k = kernel();
    let mut s = Scheduler::new(2);
    k.proc_new(100);
    let t = k.sched_init_spawn(&mut s, 0);
    assert_eq!(t, r(1, 1));
    assert_eq!(s.current, Some(r(1, 1)));
    let p = &k.procs[0];
    assert_eq!(p.pid, 1);
    assert_eq!(p.mask, 775);
    assert_eq!(p.cwd, b"/".to_vec());
    assert_eq!(p.threads[0].spawned, 1);
    assert_eq!(p.threads[0].state, ThreadState::RUNNABLE);
    assert_eq!(k.sessions[0].leader, 1);
    assert_eq!(k.pgroups[0].procs, vec![1]);
    assert_eq!(k.thread_create(0), r(1, 2));
    assert_eq!(k.sys_thread_create(&mut s, 0), 3);
    assert_eq!(s.ready, vec![r(1, 3)]);
    assert_eq!(k.procs[0].threads.len(), 3);
    s.current = Some(r(1, 1));
    s.thread_queue_sleep(0, &mut k.procs[0].threads[0]);
    k.sys_thread_exit(&mut s, 0, 2, 0);
    assert_eq!(k.procs[0].threads[2].state, ThreadState::ZOMBIE);
    assert_eq!(s.ready, vec![r(1, 3), r(1, 1)]);
    assert!(s.queues[0].is_empty());
}

#[test]
fn fork_readies_child() {
    let mut k = kernel();
    let mut s = Scheduler::new(1);
    k.proc_new(100);
    k.sched_init_spawn(&mut s, 0);
    let o = k.sys_fork(&mut s, 0, 200);
    assert_eq!(o.child, 1);
    assert_eq!(o.pid, 2);
    assert_eq!(s.ready, vec![r(2, 1)]);
    assert_eq!(k.procs[1].parent, Some(1));
    assert_eq!(k.procs[1].threads[0].spawned, 1);
    assert_eq!(k.procs[1].threads[0].owner, 2);
    assert_eq!(k.procs[0].threads[0].owner, 1);
    assert_eq!(s.schedule(), Some(r(2, 1)));
    assert_eq!(s.ready, vec![r(1, 1)]);
}
