use vstd::prelude::*;

verus! {

/// The end phase of a running timer: the waiters still to finish, whether the registration
/// lock is still held, whether an end command is still to run, and whether anything failed.
#[derive(Clone, Copy, Debug, PartialEq, Eq, Structural)]
pub struct Session {
    pub pending: u64,
    pub holds_lock: bool,
    pub command: bool,
    pub failed: bool,
}

/// What the runner does next.
#[derive(Clone, Copy, Debug, PartialEq, Eq, Structural)]
pub enum Action {
    /// Await one more of the waiters.
    AwaitWaiter,
    /// Release the registration lock.
    Unlock,
    /// Run the end command.
    RunCommand,
    /// Stop, reporting failure or success.
    Exit { failed: bool },
}

/// What the runner reports back after an action.
#[derive(Clone, Copy, Debug, PartialEq, Eq, Structural)]
pub enum Event {
    WaiterFinished { ok: bool },
    Unlocked { ok: bool },
    CommandFinished { ok: bool },
}

/// The action due in `s`: all waiters first, then the release of the lock, then the end
/// command, which is skipped once anything has failed.
pub open spec fn action_spec(s: Session) -> Action {
    if s.pending > 0 {
        Action::AwaitWaiter
    } else if s.holds_lock {
        Action::Unlock
    } else if s.command && !s.failed {
        Action::RunCommand
    } else {
        Action::Exit { failed: s.failed }
    }
}

/// Whether `e` reports the outcome of the action due in `s`.
pub open spec fn answers(s: Session, e: Event) -> bool {
    match e {
        Event::WaiterFinished { .. } => action_spec(s) == Action::AwaitWaiter,
        Event::Unlocked { .. } => action_spec(s) == Action::Unlock,
        Event::CommandFinished { .. } => action_spec(s) == Action::RunCommand,
    }
}

/// The session after `e`.
pub open spec fn apply_spec(s: Session, e: Event) -> Session {
    match e {
        Event::WaiterFinished { ok } => Session { pending: (s.pending - 1) as u64, failed: s.failed || !ok, ..s },
        Event::Unlocked { ok } => Session { holds_lock: false, failed: s.failed || !ok, ..s },
        Event::CommandFinished { ok } => Session { command: false, failed: s.failed || !ok, ..s },
    }
}

/// What is left to do in `s`; each answered action makes it smaller.
pub open spec fn work_left(s: Session) -> nat {
    s.pending as nat + if s.holds_lock {
        1nat
    } else {
        0nat
    } + if s.command {
        1nat
    } else {
        0nat
    }
}

/// The session of a timer with `waiters` waiters, registered or not, with or without an end
/// command.
pub fn start_session(waiters: u64, registered: bool, has_command: bool) -> (r: Session)
    ensures
        r == (Session { pending: waiters, holds_lock: registered, command: has_command, failed: false }),
{
    Session { pending: waiters, holds_lock: registered, command: has_command, failed: false }
}

/// The action due in `s`.
pub fn next_action(s: &Session) -> (r: Action)
    ensures
        r == action_spec(*s),
{
    if s.pending > 0 {
        Action::AwaitWaiter
    } else if s.holds_lock {
        Action::Unlock
    } else if s.command && !s.failed {
        Action::RunCommand
    } else {
        Action::Exit { failed: s.failed }
    }
}

/// The session after the outcome `e` of the action due in `s`.
pub fn apply(s: Session, e: Event) -> (r: Session)
    requires
        answers(s, e),
    ensures
        r == apply_spec(s, e),
        work_left(r) < work_left(s),
{
    match e {
        Event::WaiterFinished { ok } => Session { pending: s.pending - 1, failed: s.failed || !ok, ..s },
        Event::Unlocked { ok } => Session { holds_lock: false, failed: s.failed || !ok, ..s },
        Event::CommandFinished { ok } => Session { command: false, failed: s.failed || !ok, ..s },
    }
}

/// The lock is released only once every waiter has finished, and the end command runs only
/// after every waiter has finished and the lock is released, and only when nothing failed.
pub proof fn lemma_release_before_command(s: Session)
    ensures
        action_spec(s) == Action::Unlock ==> s.pending == 0 && s.holds_lock,
        action_spec(s) == Action::RunCommand ==> s.pending == 0 && !s.holds_lock && !s.failed,
{
}

/// A session never stops while it holds the lock, so the lock is released on the failure
/// paths too; and once released, the lock is never released again.
pub proof fn lemma_lock_released_once(s: Session, e: Event)
    requires
        answers(s, e),
    ensures
        s.holds_lock ==> !(action_spec(s) is Exit),
        !s.holds_lock ==> !apply_spec(s, e).holds_lock,
        e is Unlocked ==> !apply_spec(s, e).holds_lock,
{
}

/// A failure is never forgotten: once failed, the session stays failed and stops with a
/// failure.
pub proof fn lemma_failure_kept(s: Session, e: Event)
    requires
        answers(s, e),
        s.failed,
    ensures
        apply_spec(s, e).failed,
        action_spec(s) != Action::RunCommand,
{
}

} // verus!
