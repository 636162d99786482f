//! Running a program in the background: where its output goes, and how it is
//! stopped when asked to (first politely, then by force after a timeout).
use vstd::prelude::*;
use crate::server::config::{joined, join_path};

verus! {

/// The seconds a program has to exit after it is asked to terminate, before
/// it is killed.
pub const SIGTERM_TIMEOUT: u64 = 5;

/// The name of the file under the temporary directory that receives a
/// program's output: `gcast_`, the program, a dot and the stream's name.
pub open spec fn output_name(exe: Seq<char>, stream: Seq<char>) -> Seq<char> {
    "gcast_"@ + exe + "."@ + stream
}

/// The files that receive the standard output and the standard error of the
/// program `exe`, under the temporary directory `tmp`.
pub fn output_files(tmp: &str, exe: &str) -> (r: (String, String))
    requires
        exe@.len() > 0,
    ensures
        r.0@ == joined(tmp@, output_name(exe@, "stdout"@)),
        r.1@ == joined(tmp@, output_name(exe@, "stderr"@)),
{
    let mut out = String::from_str("gcast_");
    out.append(exe);
    out.append(".stdout");
    let mut err = String::from_str("gcast_");
    err.append(exe);
    err.append(".stderr");
    proof {
        reveal_strlit("gcast_");
        reveal_strlit(".stdout");
        reveal_strlit(".stderr");
        reveal_strlit("stdout");
        reveal_strlit("stderr");
        reveal_strlit(".");
        assert(out@ =~= output_name(exe@, "stdout"@));
        assert(err@ =~= output_name(exe@, "stderr"@));
    }
    (join_path(tmp, out.as_str()), join_path(tmp, err.as_str()))
}

/// Where a running program stands.
#[derive(Debug, Clone, Copy, PartialEq, Eq, Structural)]
pub enum ProcPhase {
    /// It runs; nobody asked it to stop.
    Running,
    /// It was asked to terminate and has until the timeout to exit.
    Terminating,
    /// It did not exit in time and was killed.
    Killing,
    /// It exited.
    Exited,
}

/// What happens to a running program.
#[derive(Debug, Clone, Copy, PartialEq, Eq, Structural)]
pub enum ProcEvent {
    /// It exited.
    Exited,
    /// It is asked to stop.
    KillRequested,
    /// The time to terminate ran out.
    TimedOut,
}

/// What is to be done after an event.
#[derive(Debug, Clone, Copy, PartialEq, Eq, Structural)]
pub enum ProcAction {
    /// Go on waiting.
    Wait,
    /// Ask the program to terminate and wait for it, at most `SIGTERM_TIMEOUT`
    /// seconds.
    Terminate,
    /// Kill the program and wait for it.
    Kill,
    /// Report how it exited.
    Report,
}

/// The phase after an event, and what is to be done: a program that exits is
/// reported whatever the phase; one asked to stop is asked to terminate; one
/// that does not exit in time is killed. Other events change nothing.
pub open spec fn proc_step(phase: ProcPhase, event: ProcEvent) -> (ProcPhase, ProcAction) {
    match (phase, event) {
        (ProcPhase::Exited, _) => (ProcPhase::Exited, ProcAction::Wait),
        (_, ProcEvent::Exited) => (ProcPhase::Exited, ProcAction::Report),
        (ProcPhase::Running, ProcEvent::KillRequested) => (ProcPhase::Terminating, ProcAction::Terminate),
        (ProcPhase::Terminating, ProcEvent::TimedOut) => (ProcPhase::Killing, ProcAction::Kill),
        _ => (phase, ProcAction::Wait),
    }
}

/// Takes an event of a running program (see `proc_step`).
pub fn proc_next(phase: ProcPhase, event: ProcEvent) -> (r: (ProcPhase, ProcAction))
    ensures
        r == proc_step(phase, event),
{
    match (phase, event) {
        (ProcPhase::Exited, _) => (ProcPhase::Exited, ProcAction::Wait),
        (_, ProcEvent::Exited) => (ProcPhase::Exited, ProcAction::Report),
        (ProcPhase::Running, ProcEvent::KillRequested) => (ProcPhase::Terminating, ProcAction::Terminate),
        (ProcPhase::Terminating, ProcEvent::TimedOut) => (ProcPhase::Killing, ProcAction::Kill),
        _ => (phase, ProcAction::Wait),
    }
}

/// A program asked to stop is killed at most once, and only after it was asked
/// to terminate and did not exit in time; once it exited nothing more is done.
pub proof fn lemma_kill_follows_terminate(phase: ProcPhase, event: ProcEvent)
    ensures
        proc_step(phase, event).1 == ProcAction::Kill ==> phase == ProcPhase::Terminating
            && event == ProcEvent::TimedOut,
        proc_step(phase, event).1 == ProcAction::Terminate ==> phase == ProcPhase::Running,
        phase == ProcPhase::Exited ==> proc_step(phase, event) == (ProcPhase::Exited, ProcAction::Wait),
        phase != ProcPhase::Exited && event == ProcEvent::Exited ==> proc_step(phase, event) == (
            ProcPhase::Exited,
            ProcAction::Report,
        ),
{
}

/// Every transition of a running program: asked to stop, it is asked to
/// terminate; when the time to terminate runs out, it is killed; when it exits,
/// its exit is reported, whatever the phase; once it exited, nothing more is
/// done; any other event changes nothing.
pub proof fn lemma_proc_transitions(phase: ProcPhase, event: ProcEvent)
    ensures
        proc_step(ProcPhase::Running, ProcEvent::KillRequested) == (ProcPhase::Terminating, ProcAction::Terminate),
        proc_step(ProcPhase::Terminating, ProcEvent::TimedOut) == (ProcPhase::Killing, ProcAction::Kill),
        proc_step(ProcPhase::Running, ProcEvent::Exited) == (ProcPhase::Exited, ProcAction::Report),
        proc_step(ProcPhase::Terminating, ProcEvent::Exited) == (ProcPhase::Exited, ProcAction::Report),
        proc_step(ProcPhase::Killing, ProcEvent::Exited) == (ProcPhase::Exited, ProcAction::Report),
        proc_step(ProcPhase::Exited, event) == (ProcPhase::Exited, ProcAction::Wait),
        proc_step(ProcPhase::Running, ProcEvent::TimedOut) == (ProcPhase::Running, ProcAction::Wait),
        proc_step(ProcPhase::Terminating, ProcEvent::KillRequested) == (ProcPhase::Terminating, ProcAction::Wait),
        proc_step(ProcPhase::Killing, ProcEvent::KillRequested) == (ProcPhase::Killing, ProcAction::Wait),
        proc_step(ProcPhase::Killing, ProcEvent::TimedOut) == (ProcPhase::Killing, ProcAction::Wait),
{
}

} // verus!
