use vstd::prelude::*;

verus! {

/// What an announcer does on one tick of its timer.
#[derive(Debug, Clone, Copy, PartialEq, Eq, Structural)]
pub enum TickAction {
    /// Broadcast the local identity.
    Send,
    /// Stay silent this tick.
    Skip,
}

/// The announce switch: while enabled, every tick broadcasts the local
/// identity; while disabled, ticks pass without a send.
#[derive(Debug)]
pub struct Announcer {
    enabled: bool,
}

/// The action that a tick takes with the switch `enabled` or not.
pub open spec fn action_of(enabled: bool) -> TickAction {
    if enabled {
        TickAction::Send
    } else {
        TickAction::Skip
    }
}

impl Announcer {
    pub closed spec fn enabled_spec(&self) -> bool {
        self.enabled
    }

    /// A switch that starts enabled.
    pub fn new() -> (r: Self)
        ensures
            r.enabled_spec(),
    {
        Announcer { enabled: true }
    }

    /// Opens the switch from the next tick on; idempotent.
    pub fn enable(&mut self)
        ensures
            final(self).enabled_spec(),
    {
        self.enabled = true;
    }

    /// Closes the switch from the next tick on; idempotent.
    pub fn disable(&mut self)
        ensures
            !final(self).enabled_spec(),
    {
        self.enabled = false;
    }

    pub fn is_enabled(&self) -> (r: bool)
        ensures
            r == self.enabled_spec(),
    {
        self.enabled
    }

    /// Decides one tick: send while enabled, skip while disabled.
    pub fn tick(&self) -> (r: TickAction)
        ensures
            r == action_of(self.enabled_spec()),
    {
        if self.enabled {
            TickAction::Send
        } else {
            TickAction::Skip
        }
    }
}

/// A switch that `disable` closed skips every tick, however many pass, and
/// the same switch sends again on the first tick after `enable`: no new
/// announcer is needed.
pub proof fn lemma_disable_suppresses(disabled: Announcer, reenabled: Announcer)
    requires
        !disabled.enabled_spec(),
        reenabled.enabled_spec(),
    ensures
        action_of(disabled.enabled_spec()) == TickAction::Skip,
        action_of(reenabled.enabled_spec()) == TickAction::Send,
{
}

} // verus!
