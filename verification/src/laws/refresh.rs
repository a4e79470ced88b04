//! Laws of the refresh loops: when they fetch and for how long they wait.
use crate::refresh::{action_at, RefreshAction, RefreshSchedule};
use vstd::prelude::*;

verus! {

/// A loop sleeps for as long as was asked for, and for ten seconds where less
/// was asked for; it has taken no step yet.
pub proof fn intervals_are_as_asked_for(requested: u64, schedule: RefreshSchedule)
    requires
        call_ensures(RefreshSchedule::new, (requested,), schedule),
    ensures
        requested >= 10 ==> schedule.interval_secs() == requested,
        requested < 10 ==> schedule.interval_secs() == 10,
        schedule.step() == 0,
{
}

/// The first step of a loop is a fetch of at most five seconds. After that come
/// in turn a sleep of one interval and a fetch of at most ten seconds.
pub proof fn steps_of_a_loop(schedule: &mut RefreshSchedule, action: RefreshAction, k: nat)
    requires
        call_ensures(RefreshSchedule::next, (schedule,), action),
    ensures
        final(schedule).interval_secs() == old(schedule).interval_secs(),
        final(schedule).step() == old(schedule).step() + 1,
        old(schedule).step() == 0 ==> action == (RefreshAction::Fetch {
            timeout_secs: 5,
            initial: true,
        }),
        old(schedule).step() == 2 * k + 1 ==> action == (RefreshAction::Sleep {
            secs: old(schedule).interval_secs(),
        }),
        old(schedule).step() == 2 * k + 2 ==> action == (RefreshAction::Fetch {
            timeout_secs: 10,
            initial: false,
        }),
{
    assert(action == action_at(old(schedule).interval_secs(), old(schedule).step()));
    assert((2 * k + 1) % 2 == 1);
    assert((2 * k + 2) % 2 == 0);
}

} // verus!
