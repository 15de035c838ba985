use vstd::prelude::*;

verus! {

/// Hangup.
pub const SIGHUP: isize = 1;

/// Interrupt.
pub const SIGINT: isize = 2;

/// Quit.
pub const SIGQUIT: isize = 3;

/// Illegal instruction.
pub const SIGILL: isize = 4;

/// Trace trap.
pub const SIGTRAP: isize = 5;

/// Abort.
pub const SIGABRT: isize = 6;

/// EMT instruction.
pub const SIGEMT: isize = 7;

/// Floating point exception.
pub const SIGFPE: isize = 8;

/// Kill (cannot be caught or ignored).
pub const SIGKILL: isize = 9;

/// Bus error.
pub const SIGBUS: isize = 10;

/// Segmentation violation.
pub const SIGSEGV: isize = 11;

/// Bad argument to system call.
pub const SIGSYS: isize = 12;

/// Write on a pipe with no one to read it.
pub const SIGPIPE: isize = 13;

/// Alarm clock.
pub const SIGALRM: isize = 14;

/// Software termination signal.
pub const SIGTERM: isize = 15;

/// Urgent condition on an I/O channel.
pub const SIGURG: isize = 16;

/// Stop signal not from a tty.
pub const SIGSTOP: isize = 17;

/// Stop signal from a tty.
pub const SIGTSTP: isize = 18;

/// Continue a stopped process.
pub const SIGCONT: isize = 19;

/// To parent on child stop or exit.
pub const SIGCHLD: isize = 20;

/// Background tty read.
pub const SIGTTIN: isize = 21;

/// Background tty write.
pub const SIGTTOU: isize = 22;

/// Input/output possible.
pub const SIGIO: isize = 23;

/// Window changed.
pub const SIGWINCH: isize = 24;

/// User defined signal 1.
pub const SIGUSR1: isize = 25;

/// User defined signal 2.
pub const SIGUSR2: isize = 26;

/// Highest signal number.
pub const SIG_MAX: usize = 26;

/// Default handler.
pub const SIG_DFL: usize = 0;

/// What a signal does to a process that has no handler for it.
#[derive(Clone, Copy, Debug, PartialEq, Eq, Structural)]
#[allow(non_camel_case_types)]
pub enum SignalDefaultAction {
    SIGACT_ABORT,
    SIGACT_TERMINATE,
    SIGACT_IGNORE,
    SIGACT_STOP,
    SIGACT_CONTINUE,
}

/// A registered signal action.
#[derive(Clone, Copy, Debug, PartialEq, Eq, Structural)]
pub struct SignalAction {
    pub sa_handler: usize,
    pub sa_mask: u32,
    pub sa_flags: isize,
}

/// The default action of each signal number, 0 standing for no signal.
pub open spec fn sig_default_table() -> Seq<SignalDefaultAction> {
    seq![
        SignalDefaultAction::SIGACT_IGNORE,
        SignalDefaultAction::SIGACT_TERMINATE,
        SignalDefaultAction::SIGACT_TERMINATE,
        SignalDefaultAction::SIGACT_ABORT,
        SignalDefaultAction::SIGACT_ABORT,
        SignalDefaultAction::SIGACT_ABORT,
        SignalDefaultAction::SIGACT_ABORT,
        SignalDefaultAction::SIGACT_IGNORE,
        SignalDefaultAction::SIGACT_ABORT,
        SignalDefaultAction::SIGACT_TERMINATE,
        SignalDefaultAction::SIGACT_ABORT,
        SignalDefaultAction::SIGACT_ABORT,
        SignalDefaultAction::SIGACT_ABORT,
        SignalDefaultAction::SIGACT_TERMINATE,
        SignalDefaultAction::SIGACT_TERMINATE,
        SignalDefaultAction::SIGACT_TERMINATE,
        SignalDefaultAction::SIGACT_IGNORE,
        SignalDefaultAction::SIGACT_STOP,
        SignalDefaultAction::SIGACT_STOP,
        SignalDefaultAction::SIGACT_CONTINUE,
        SignalDefaultAction::SIGACT_IGNORE,
        SignalDefaultAction::SIGACT_STOP,
        SignalDefaultAction::SIGACT_STOP,
        SignalDefaultAction::SIGACT_TERMINATE,
        SignalDefaultAction::SIGACT_IGNORE,
        SignalDefaultAction::SIGACT_TERMINATE,
        SignalDefaultAction::SIGACT_TERMINATE,
    ]
}

/// The signals that end a process by default: hangup, interrupt, kill,
/// broken pipe, alarm, termination, I/O possible and the two user signals.
pub open spec fn terminating_signal(sig: int) -> bool {
    sig == SIGHUP || sig == SIGINT || sig == SIGKILL || sig == SIGPIPE || sig == SIGALRM || sig
        == SIGTERM || sig == SIGIO || sig == SIGUSR1 || sig == SIGUSR2
}

/// The signals that abort a process by default: quit, illegal instruction,
/// trace trap, abort, floating point exception, bus error, segmentation
/// violation and bad system call.
pub open spec fn aborting_signal(sig: int) -> bool {
    sig == SIGQUIT || sig == SIGILL || sig == SIGTRAP || sig == SIGABRT || sig == SIGFPE || sig
        == SIGBUS || sig == SIGSEGV || sig == SIGSYS
}

/// The signals that stop a process by default: stop, terminal stop and
/// background terminal read and write.
pub open spec fn stopping_signal(sig: int) -> bool {
    sig == SIGSTOP || sig == SIGTSTP || sig == SIGTTIN || sig == SIGTTOU
}

/// The default action of every signal number up to `SIG_MAX`: the
/// terminating signals terminate, the aborting ones abort, the stopping
/// ones stop, `SIGCONT` continues, and every other number (no signal,
/// emulator trap, urgent data, child status and window change) is ignored.
pub proof fn lemma_sig_default_actions(sig: int)
    requires
        0 <= sig <= SIG_MAX,
    ensures
        (sig_default_table()[sig] == SignalDefaultAction::SIGACT_TERMINATE) <==> terminating_signal(sig),
        (sig_default_table()[sig] == SignalDefaultAction::SIGACT_ABORT) <==> aborting_signal(sig),
        (sig_default_table()[sig] == SignalDefaultAction::SIGACT_STOP) <==> stopping_signal(sig),
        (sig_default_table()[sig] == SignalDefaultAction::SIGACT_CONTINUE) <==> sig == SIGCONT,
        (sig_default_table()[sig] == SignalDefaultAction::SIGACT_IGNORE) <==> (sig == 0 || sig
            == SIGEMT || sig == SIGURG || sig == SIGCHLD || sig == SIGWINCH),
{
    let t = sig_default_table();
    assert(t[0] == SignalDefaultAction::SIGACT_IGNORE);
    assert(t[1] == SignalDefaultAction::SIGACT_TERMINATE);
    assert(t[2] == SignalDefaultAction::SIGACT_TERMINATE);
    assert(t[3] == SignalDefaultAction::SIGACT_ABORT);
    assert(t[4] == SignalDefaultAction::SIGACT_ABORT);
    assert(t[5] == SignalDefaultAction::SIGACT_ABORT);
    assert(t[6] == SignalDefaultAction::SIGACT_ABORT);
    assert(t[7] == SignalDefaultAction::SIGACT_IGNORE);
    assert(t[8] == SignalDefaultAction::SIGACT_ABORT);
    assert(t[9] == SignalDefaultAction::SIGACT_TERMINATE);
    assert(t[10] == SignalDefaultAction::SIGACT_ABORT);
    assert(t[11] == SignalDefaultAction::SIGACT_ABORT);
    assert(t[12] == SignalDefaultAction::SIGACT_ABORT);
    assert(t[13] == SignalDefaultAction::SIGACT_TERMINATE);
    assert(t[14] == SignalDefaultAction::SIGACT_TERMINATE);
    assert(t[15] == SignalDefaultAction::SIGACT_TERMINATE);
    assert(t[16] == SignalDefaultAction::SIGACT_IGNORE);
    assert(t[17] == SignalDefaultAction::SIGACT_STOP);
    assert(t[18] == SignalDefaultAction::SIGACT_STOP);
    assert(t[19] == SignalDefaultAction::SIGACT_CONTINUE);
    assert(t[20] == SignalDefaultAction::SIGACT_IGNORE);
    assert(t[21] == SignalDefaultAction::SIGACT_STOP);
    assert(t[22] == SignalDefaultAction::SIGACT_STOP);
    assert(t[23] == SignalDefaultAction::SIGACT_TERMINATE);
    assert(t[24] == SignalDefaultAction::SIGACT_IGNORE);
    assert(t[25] == SignalDefaultAction::SIGACT_TERMINATE);
    assert(t[26] == SignalDefaultAction::SIGACT_TERMINATE);
}

/// The default action of signal `sig`.
pub fn sig_default_action(sig: usize) -> (r: SignalDefaultAction)
    requires
        sig <= SIG_MAX,
    ensures
        r == sig_default_table()[sig as int],
        (r == SignalDefaultAction::SIGACT_TERMINATE) <==> terminating_signal(sig as int),
        (r == SignalDefaultAction::SIGACT_ABORT) <==> aborting_signal(sig as int),
        (r == SignalDefaultAction::SIGACT_STOP) <==> stopping_signal(sig as int),
        (r == SignalDefaultAction::SIGACT_CONTINUE) <==> sig == SIGCONT,
{
    proof {
        lemma_sig_default_actions(sig as int);
    }
    let t = vec![
        SignalDefaultAction::SIGACT_IGNORE,
        SignalDefaultAction::SIGACT_TERMINATE,
        SignalDefaultAction::SIGACT_TERMINATE,
        SignalDefaultAction::SIGACT_ABORT,
        SignalDefaultAction::SIGACT_ABORT,
        SignalDefaultAction::SIGACT_ABORT,
        SignalDefaultAction::SIGACT_ABORT,
        SignalDefaultAction::SIGACT_IGNORE,
        SignalDefaultAction::SIGACT_ABORT,
        SignalDefaultAction::SIGACT_TERMINATE,
        SignalDefaultAction::SIGACT_ABORT,
        SignalDefaultAction::SIGACT_ABORT,
        SignalDefaultAction::SIGACT_ABORT,
        SignalDefaultAction::SIGACT_TERMINATE,
        SignalDefaultAction::SIGACT_TERMINATE,
        SignalDefaultAction::SIGACT_TERMINATE,
        SignalDefaultAction::SIGACT_IGNORE,
        SignalDefaultAction::SIGACT_STOP,
        SignalDefaultAction::SIGACT_STOP,
        SignalDefaultAction::SIGACT_CONTINUE,
        SignalDefaultAction::SIGACT_IGNORE,
        SignalDefaultAction::SIGACT_STOP,
        SignalDefaultAction::SIGACT_STOP,
        SignalDefaultAction::SIGACT_TERMINATE,
        SignalDefaultAction::SIGACT_IGNORE,
        SignalDefaultAction::SIGACT_TERMINATE,
        SignalDefaultAction::SIGACT_TERMINATE,
    ];
    assert(t@ == sig_default_table());
    t[sig]
}

} // verus!
