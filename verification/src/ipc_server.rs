//! The adjustment that other programs make from outside.

use crate::binary64::accuracy::special_sums;
use crate::binary64::arithmetic::lemma_whole_is_exact;
use crate::binary64::laws::{
    opposite_flips_value, plus_zero_is_the_same_number, rounded_units, sum_rounds_exact_sum,
};
use crate::binary64::Binary64;
use vstd::prelude::*;

verus! {

/// What a request has the daemon do.
#[derive(Copy, Clone, Debug, PartialEq, Eq)]
pub enum Effect {
    /// Tell every listener the adjustment.
    Broadcast(Binary64),
    /// Shut everything down.
    Cancel,
}

/// The adjustment in force.
#[derive(Copy, Clone, Debug, PartialEq, Eq)]
pub struct Remote {
    pub adjust: Binary64,
}

/// What another program can ask for.
#[derive(Copy, Clone, Debug, PartialEq, Eq)]
pub enum Request {
    AdjustBy(Binary64),
    SetAdjustment(Binary64),
    Quit,
}

impl Remote {
    /// What a request makes of the adjustment, and what follows from it.
    pub open spec fn answers(self, request: Request, next: Remote, effect: Effect) -> bool {
        match request {
            Request::AdjustBy(amt) => {
                &&& next.adjust == self.adjust.plus(amt)
                &&& effect == Effect::Broadcast(next.adjust)
            },
            Request::SetAdjustment(amt) => {
                &&& next.adjust == amt
                &&& effect == Effect::Broadcast(next.adjust)
            },
            Request::Quit => {
                &&& next == self
                &&& effect == Effect::Cancel
            },
        }
    }

    /// No adjustment yet.
    pub fn new() -> (r: Remote)
        ensures
            r.adjust == Binary64::of_whole(0),
    {
        Remote { adjust: Binary64::from_whole(0) }
    }

    /// Changes the adjustment by an amount.
    pub fn adjust_by(&mut self, amt: Binary64) -> (r: Effect)
        ensures
            old(self).answers(Request::AdjustBy(amt), *final(self), r),
            r == Effect::Broadcast(final(self).adjust),
            old(self).adjust.finite() && amt.finite() ==> {
                &&& !final(self).adjust.nan()
                &&& final(self).adjust.value() == rounded_units(
                    old(self).adjust.value() + amt.value(),
                )
            },
    {
        proof {
            if self.adjust.finite() && amt.finite() {
                sum_rounds_exact_sum(self.adjust, amt);
            }
        }
        self.adjust = self.adjust.sum(amt);
        Effect::Broadcast(self.adjust)
    }

    /// Sets the adjustment to an amount.
    pub fn set_adjustment(&mut self, amt: Binary64) -> (r: Effect)
        ensures
            old(self).answers(Request::SetAdjustment(amt), *final(self), r),
            final(self).adjust == amt,
            r == Effect::Broadcast(amt),
    {
        self.adjust = amt;
        Effect::Broadcast(self.adjust)
    }

    /// Asks for the daemon to shut down.
    pub fn quit(&mut self) -> (r: Effect)
        ensures
            old(self).answers(Request::Quit, *final(self), r),
            *final(self) == *old(self),
            r is Cancel,
    {
        Effect::Cancel
    }
}

/// What is written out when the daemon is asked to shut down.
pub fn quit_notice() -> (r: String)
    ensures
        r@ == "shutting down due to IPC quit signal"@,
{
    "shutting down due to IPC quit signal".to_owned()
}

/// Listeners always hear the adjustment that is then in force, and the daemon is
/// shut down by a request to quit and by no other.
pub proof fn listeners_hear_what_is_in_force(
    remote: Remote,
    request: Request,
    next: Remote,
    effect: Effect,
)
    requires
        remote.answers(request, next, effect),
    ensures
        effect matches Effect::Broadcast(amt) ==> amt == next.adjust,
        effect == Effect::Cancel <==> request is Quit,
        request is Quit ==> next == remote,
{
}

/// Setting the adjustment forgets the one before.
pub proof fn setting_forgets(
    a: Remote,
    b: Remote,
    amt: Binary64,
    after_a: Remote,
    effect_a: Effect,
    after_b: Remote,
    effect_b: Effect,
)
    requires
        a.answers(Request::SetAdjustment(amt), after_a, effect_a),
        b.answers(Request::SetAdjustment(amt), after_b, effect_b),
    ensures
        after_a == after_b,
        effect_a == effect_b,
{
}

/// From no adjustment, changing it by an amount comes to setting it to that
/// amount.
pub proof fn first_change_sets(remote: Remote, amt: Binary64, next: Remote, effect: Effect)
    requires
        remote.adjust == Binary64::of_whole(0),
        !amt.nan(),
        remote.answers(Request::AdjustBy(amt), next, effect),
    ensures
        next.adjust.equals(amt),
{
    lemma_whole_is_exact(0);
    plus_zero_is_the_same_number(amt, remote.adjust);
}

/// Changing the adjustment adds the amount to it, rounded, and listeners hear the
/// sum. With an infinity it is infinite, and with what is not a number, or
/// opposite infinities, it is none.
pub proof fn changes_add_up(remote: Remote, amt: Binary64, next: Remote, effect: Effect)
    requires
        remote.answers(Request::AdjustBy(amt), next, effect),
    ensures
        effect == Effect::Broadcast(next.adjust),
        remote.adjust.finite() && amt.finite() ==> !next.adjust.nan() && next.adjust.value()
            == rounded_units(remote.adjust.value() + amt.value()),
        remote.adjust.infinite() && amt.finite() ==> next.adjust == remote.adjust,
        remote.adjust.finite() && amt.infinite() ==> next.adjust == amt,
        remote.adjust.infinite() && amt == remote.adjust ==> next.adjust == amt,
        remote.adjust.infinite() && amt == remote.adjust.opposite() ==> next.adjust.nan(),
        remote.adjust.nan() || amt.nan() ==> next.adjust.nan(),
{
    special_sums(remote.adjust, amt);
    opposite_flips_value(remote.adjust);
    if remote.adjust.finite() && amt.finite() {
        sum_rounds_exact_sum(remote.adjust, amt);
    }
}

/// Setting the adjustment makes it exactly the amount, and listeners hear that.
pub proof fn settings_are_exact(remote: Remote, amt: Binary64, next: Remote, effect: Effect)
    requires
        remote.answers(Request::SetAdjustment(amt), next, effect),
    ensures
        next.adjust == amt,
        effect == Effect::Broadcast(amt),
{
}

} // verus!
