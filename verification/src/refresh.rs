//! When the caches are refreshed.
//!
//! A first attempt is made at once and given little time, so that a slow or
//! failed read at startup does not leave a cache empty for a whole interval.
//! After it, sleeping and fetching alternate for ever.
use vstd::prelude::*;

verus! {

/// The shortest interval between two refreshes, in seconds.
pub const MIN_INTERVAL_SECS: u64 = 10;

/// How long the first attempt may take, in seconds.
pub const INITIAL_TIMEOUT_SECS: u64 = 5;

/// How long each later attempt may take, in seconds.
pub const REFRESH_TIMEOUT_SECS: u64 = 10;

/// What a refresh loop does next.
#[derive(Clone, Copy, Debug, PartialEq, Eq, Structural)]
pub enum RefreshAction {
    /// Try to fetch, for at most so many seconds.
    Fetch {
        timeout_secs: u64,
        /// This is the attempt at startup.
        initial: bool,
    },
    /// Wait for so many seconds.
    Sleep { secs: u64 },
}

/// The seconds between refreshes, for what was asked for.
pub open spec fn interval_for(requested_secs: u64) -> u64 {
    if requested_secs < MIN_INTERVAL_SECS {
        MIN_INTERVAL_SECS
    } else {
        requested_secs
    }
}

/// What a loop does at a step, counted from zero: it fetches at the even ones
/// and sleeps at the odd ones.
pub open spec fn action_at(interval_secs: u64, step: nat) -> RefreshAction {
    if step == 0 {
        RefreshAction::Fetch { timeout_secs: INITIAL_TIMEOUT_SECS, initial: true }
    } else if step % 2 == 1 {
        RefreshAction::Sleep { secs: interval_secs }
    } else {
        RefreshAction::Fetch { timeout_secs: REFRESH_TIMEOUT_SECS, initial: false }
    }
}

/// How far a loop has come.
#[derive(Clone, Copy, Debug, PartialEq, Eq, Structural)]
enum Phase {
    Start,
    Fetched,
    Slept,
}

/// A refresh loop.
pub struct RefreshSchedule {
    interval_secs: u64,
    phase: Phase,
    /// How many steps were taken.
    taken: Ghost<nat>,
}

impl RefreshSchedule {
    /// The seconds that the loop sleeps.
    pub closed spec fn interval_secs(self) -> u64 {
        self.interval_secs
    }

    /// How many steps the loop has taken.
    pub closed spec fn step(self) -> nat {
        self.taken@
    }

    /// The phase is that of the steps taken.
    #[verifier::type_invariant]
    spec fn phase_follows_steps(self) -> bool {
        match self.phase {
            Phase::Start => self.taken@ == 0,
            Phase::Fetched => self.taken@ % 2 == 1,
            Phase::Slept => self.taken@ > 0 && self.taken@ % 2 == 0,
        }
    }

    /// A loop that has done nothing yet.
    pub fn new(requested_secs: u64) -> (schedule: Self)
        ensures
            schedule.interval_secs() == interval_for(requested_secs),
            schedule.step() == 0,
    {
        let interval_secs = if requested_secs < MIN_INTERVAL_SECS {
            MIN_INTERVAL_SECS
        } else {
            requested_secs
        };
        RefreshSchedule { interval_secs, phase: Phase::Start, taken: Ghost(0) }
    }

    /// What the loop does now. The loop moves on to the next step.
    pub fn next(&mut self) -> (action: RefreshAction)
        ensures
            action == action_at(old(self).interval_secs(), old(self).step()),
            final(self).interval_secs() == old(self).interval_secs(),
            final(self).step() == old(self).step() + 1,
    {
        proof {
            use_type_invariant(&*self);
        }
        let interval_secs = self.interval_secs;
        let ghost taken = self.taken@ + 1;
        let (action, phase) = match self.phase {
            Phase::Start => (
                RefreshAction::Fetch { timeout_secs: INITIAL_TIMEOUT_SECS, initial: true },
                Phase::Fetched,
            ),
            Phase::Fetched => (RefreshAction::Sleep { secs: interval_secs }, Phase::Slept),
            Phase::Slept => (
                RefreshAction::Fetch { timeout_secs: REFRESH_TIMEOUT_SECS, initial: false },
                Phase::Fetched,
            ),
        };
        *self = RefreshSchedule { interval_secs, phase, taken: Ghost(taken) };
        action
    }
}

/// Between two fetches a loop sleeps for the interval, which is what was asked
/// for and at least ten seconds; between two sleeps it fetches.
pub proof fn fetches_are_spaced(requested_secs: u64, step: nat)
    ensures
        interval_for(requested_secs) >= 10,
        interval_for(requested_secs) >= requested_secs,
        action_at(interval_for(requested_secs), step) is Fetch <==> action_at(
            interval_for(requested_secs),
            step + 1,
        ) == (RefreshAction::Sleep { secs: interval_for(requested_secs) }),
{
}

/// Only the very first attempt of a loop is the short one; every later one has
/// the longer time.
pub proof fn only_the_first_attempt_is_short(interval_secs: u64, step: nat)
    ensures
        action_at(interval_secs, step) == (RefreshAction::Fetch {
            timeout_secs: INITIAL_TIMEOUT_SECS,
            initial: true,
        }) <==> step == 0,
        step > 0 && action_at(interval_secs, step) is Fetch ==> action_at(interval_secs, step) == (
        RefreshAction::Fetch { timeout_secs: REFRESH_TIMEOUT_SECS, initial: false }),
{
}

} // verus!
