//! The escape count of an orbit, as far as it can be told without the
//! orbit's arithmetic: given, step by step, whether the orbit is still
//! inside the escape radius, how long the iteration runs under a cap.

use vstd::prelude::*;

verus! {

/// The count after one more look at the orbit: one more where the orbit
/// is inside the radius and the cap is not reached, else none, and the
/// iteration stops at `steps`.
pub open spec fn next_count(steps: nat, cap: nat, inside: bool) -> Option<nat> {
    if inside && steps < cap {
        Some(steps + 1)
    } else {
        None
    }
}

/// The count after `looks` looks at an orbit, of which `inside(k)` says
/// whether it is inside the radius after `k` steps.
pub open spec fn count_after(inside: spec_fn(nat) -> bool, cap: nat, looks: nat) -> nat
    decreases looks,
{
    if looks == 0 {
        0
    } else {
        let steps = count_after(inside, cap, (looks - 1) as nat);
        match next_count(steps, cap, inside(steps)) {
            Some(next) => next,
            None => steps,
        }
    }
}

/// The escape count of an orbit under a cap: the count at which the
/// iteration stops. No more looks than the cap are needed to get there.
pub open spec fn escape_count(inside: spec_fn(nat) -> bool, cap: nat) -> nat {
    count_after(inside, cap, cap)
}

/// Whether the iteration stops at `steps`: the orbit was inside the
/// radius at every count before, and at `steps` it is outside or the cap
/// is reached.
pub open spec fn stops_at(inside: spec_fn(nat) -> bool, cap: nat, steps: nat) -> bool {
    &&& steps <= cap
    &&& forall|k: nat| k < steps ==> #[trigger] inside(k)
    &&& steps == cap || !inside(steps)
}

/// The iteration stops at one count only.
pub proof fn lemma_stop_is_unique(inside: spec_fn(nat) -> bool, cap: nat, a: nat, b: nat)
    requires
        stops_at(inside, cap, a),
        stops_at(inside, cap, b),
    ensures
        a == b,
{
    if a < b {
        assert(inside(a));
    } else if b < a {
        assert(inside(b));
    }
}

/// After `looks` looks the count is the count at which the iteration
/// stops, or `looks` where it has not stopped by then.
proof fn lemma_count_after(inside: spec_fn(nat) -> bool, cap: nat, looks: nat)
    ensures
        count_after(inside, cap, looks) <= looks,
        forall|k: nat| k < count_after(inside, cap, looks) ==> #[trigger] inside(k),
        count_after(inside, cap, looks) < looks ==> stops_at(
            inside,
            cap,
            count_after(inside, cap, looks),
        ),
        count_after(inside, cap, looks) <= cap,
    decreases looks,
{
    if looks > 0 {
        lemma_count_after(inside, cap, (looks - 1) as nat);
    }
}

/// The escape count is the count at which the iteration stops: it is at
/// most the cap, the orbit is inside the radius at every count below it,
/// and where it is below the cap the orbit is outside the radius there.
pub proof fn lemma_escape_count_stops(inside: spec_fn(nat) -> bool, cap: nat)
    ensures
        stops_at(inside, cap, escape_count(inside, cap)),
{
    lemma_count_after(inside, cap, cap);
}

/// A higher cap never lowers the escape count, and it leaves the count
/// of an orbit that has escaped under the lower cap as it is.
pub proof fn lemma_escape_count_monotonic(inside: spec_fn(nat) -> bool, low: nat, high: nat)
    requires
        low <= high,
    ensures
        escape_count(inside, low) <= escape_count(inside, high),
        escape_count(inside, low) < low ==> escape_count(inside, high) == escape_count(
            inside,
            low,
        ),
{
    let a = escape_count(inside, low);
    let b = escape_count(inside, high);
    lemma_escape_count_stops(inside, low);
    lemma_escape_count_stops(inside, high);
    if b < a {
        assert(inside(b));
    }
    if a < low {
        assert(stops_at(inside, high, a));
        lemma_stop_is_unique(inside, high, a, b);
    }
}

/// An orbit that never leaves the radius has the cap as its escape
/// count.
pub proof fn lemma_bounded_orbit_reaches_cap(inside: spec_fn(nat) -> bool, cap: nat)
    requires
        forall|k: nat| #[trigger] inside(k),
    ensures
        escape_count(inside, cap) == cap,
{
    lemma_escape_count_stops(inside, cap);
}

/// An orbit that is outside the radius after its first step has the
/// escape count one under every cap but zero.
pub proof fn lemma_first_step_escapes(inside: spec_fn(nat) -> bool, cap: nat)
    requires
        inside(0),
        !inside(1),
        cap >= 1,
    ensures
        escape_count(inside, cap) == 1,
{
    lemma_escape_count_stops(inside, cap);
    assert(stops_at(inside, cap, 1)) by {
        assert forall|k: nat| k < 1 implies #[trigger] inside(k) by {
            assert(k == 0);
        }
    }
    lemma_stop_is_unique(inside, cap, 1, escape_count(inside, cap));
}

/// A run that starts at count zero, goes from each count to the next as
/// `next_count` says, and ends where `next_count` gives none, ends at the
/// escape count.
pub proof fn lemma_run_ends_at_escape_count(inside: spec_fn(nat) -> bool, cap: nat, steps: nat)
    requires
        forall|k: nat| k < steps ==> #[trigger] next_count(k, cap, inside(k)) == Some(k + 1),
        next_count(steps, cap, inside(steps)) is None,
    ensures
        steps == escape_count(inside, cap),
{
    assert forall|k: nat| k < steps implies #[trigger] inside(k) by {
        assert(next_count(k, cap, inside(k)) == Some(k + 1));
    }
    if steps > cap {
        assert(next_count(cap, cap, inside(cap)) == Some(cap + 1));
    }
    assert(stops_at(inside, cap, steps));
    lemma_escape_count_stops(inside, cap);
    lemma_stop_is_unique(inside, cap, steps, escape_count(inside, cap));
}

/// One look at the orbit: `inside` says whether it is inside the escape
/// radius after `steps` steps. Gives the next count where the iteration
/// goes on, and `None` where it stops at `steps`, the orbit being outside
/// or the cap reached.
pub fn escape_step(steps: u32, cap: u32, inside: bool) -> (next: Option<u32>)
    ensures
        match next {
            Some(n) => next_count(steps as nat, cap as nat, inside) == Some(n as nat),
            None => next_count(steps as nat, cap as nat, inside) is None,
        },
{
    if inside && steps < cap {
        Some(steps + 1)
    } else {
        None
    }
}

} // verus!
