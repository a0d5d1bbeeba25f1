use vstd::prelude::*;

verus! {

use crate::http::Response;

/// The two states of the single-shot shutdown signal.
#[derive(Clone, Copy, PartialEq, Eq, Structural, Debug)]
pub enum ShutdownState {
    /// The signal is still held and can be taken once.
    Armed,
    /// The signal has been taken; every later attempt is a benign no-op.
    Consumed,
}

/// What one consumption attempt does: the coordinator ends up consumed
/// either way, and the attempt succeeds exactly when it found the signal
/// still armed.
pub open spec fn spec_consume(s: ShutdownState) -> (ShutdownState, bool) {
    (ShutdownState::Consumed, s == ShutdownState::Armed)
}

/// The single-consumer shutdown coordinator. The server shell keeps it
/// behind an exclusive lock, so the calls to `try_consume` are the
/// serialized history of all concurrent shutdown attempts; the contract
/// below then says that exactly the first of them takes the signal.
pub struct ShutdownCoordinator {
    state: ShutdownState,
}

impl ShutdownCoordinator {
    pub closed spec fn spec_state(&self) -> ShutdownState {
        self.state
    }

    /// A fresh coordinator holds the signal.
    pub fn new() -> (r: ShutdownCoordinator)
        ensures
            r.spec_state() == ShutdownState::Armed,
    {
        ShutdownCoordinator { state: ShutdownState::Armed }
    }

    pub fn state(&self) -> (r: ShutdownState)
        ensures
            r == self.spec_state(),
    {
        self.state
    }

    /// Take the signal if it is still armed. Returns true exactly on the
    /// attempt that found it armed; every other attempt observes the
    /// consumed state and reports failure without any further effect.
    pub fn try_consume(&mut self) -> (r: bool)
        ensures
            (final(self).spec_state(), r) == spec_consume(old(self).spec_state()),
            final(self).spec_state() == ShutdownState::Consumed,
            r == (old(self).spec_state() == ShutdownState::Armed),
    {
        let r = match self.state {
            ShutdownState::Armed => true,
            ShutdownState::Consumed => false,
        };
        self.state = ShutdownState::Consumed;
        r
    }
}

/// The outcome of one shutdown trigger, as the triggering handler sees it.
pub enum ShutdownAttempt {
    /// The armed signal was taken and delivered to the accept loop.
    Signaled,
    /// The signal had already been consumed by an earlier trigger.
    AlreadyConsumed,
    /// The signal was taken but no listener was there to receive it.
    DeliveryFailed,
}

/// The reply a shutdown trigger sends: success announces the shutdown,
/// every failure — a lost race as well as a failed delivery — is reported
/// as an internal error with the fixed body.
pub fn shutdown_response(attempt: ShutdownAttempt) -> (r: Response)
    ensures
        attempt is Signaled ==> r.status == 200 && r.body@ == "shutdown\n"@,
        !(attempt is Signaled) ==> r.status == 500 && r.body@ == "error\n"@,
{
    match attempt {
        ShutdownAttempt::Signaled => Response::shutdown_ok(),
        ShutdownAttempt::AlreadyConsumed => Response::shutdown_failed(),
        ShutdownAttempt::DeliveryFailed => Response::shutdown_failed(),
    }
}

/// How many of `attempts` serialized consumption attempts succeed, starting
/// from state `s`.
pub open spec fn successes_from(s: ShutdownState, attempts: nat) -> nat
    decreases attempts,
{
    if attempts == 0 {
        0
    } else {
        (if spec_consume(s).1 {
            1nat
        } else {
            0nat
        }) + successes_from(spec_consume(s).0, (attempts - 1) as nat)
    }
}

/// No attempt against a consumed coordinator ever succeeds.
pub proof fn lemma_no_success_when_consumed(attempts: nat)
    ensures
        successes_from(ShutdownState::Consumed, attempts) == 0,
    decreases attempts,
{
    if attempts > 0 {
        lemma_no_success_when_consumed((attempts - 1) as nat);
    }
}

/// Shutdown single-consumption law: however many consumption attempts are
/// serialized against an armed coordinator, exactly one of them — the first
/// — takes the signal; all others observe the consumed state.
pub proof fn lemma_exactly_one_shutdown(attempts: nat)
    requires
        attempts >= 1,
    ensures
        successes_from(ShutdownState::Armed, attempts) == 1,
{
    lemma_no_success_when_consumed((attempts - 1) as nat);
}

/// Shutdown idempotence law: two consumption attempts, serialized by the
/// coordinator's lock in either order, end with exactly one success — the
/// first — and the coordinator consumed; the loser observes the consumed
/// state as a benign failure.
pub proof fn lemma_shutdown_consumed_once(
    s0: ShutdownState,
    s1: ShutdownState,
    s2: ShutdownState,
    first: bool,
    second: bool,
)
    requires
        s0 == ShutdownState::Armed,
        (s1, first) == spec_consume(s0),
        (s2, second) == spec_consume(s1),
    ensures
        first,
        !second,
        s2 == ShutdownState::Consumed,
{
}

} // verus!
