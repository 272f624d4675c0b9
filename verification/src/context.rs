//! What the actions of an agent see of it, and how much one tick of it may do.

use vstd::prelude::*;

verus! {

/// What a pure built-in action needs: the name of the agent it runs in.
#[derive(Debug)]
pub struct PureContext {
    pub agent_name: String,
}

impl Clone for PureContext {
    fn clone(&self) -> (r: Self)
        ensures
            r.agent_name@ == self.agent_name@,
    {
        PureContext { agent_name: self.agent_name.clone() }
    }
}

impl PureContext {
    /// The context of the agent with the given name.
    pub fn new(agent_name: String) -> (r: Self)
        ensures
            r.agent_name@ == agent_name@,
    {
        PureContext { agent_name }
    }
}

/// Limits on how much work one tick of an agent may do.
#[derive(Debug, Clone, Copy, PartialEq, Eq, Structural)]
pub struct TickBudget {
    /// Messages handled; `None`: all that are queued.
    pub max_messages: Option<usize>,
    /// Internal and external events handled.
    pub max_events: usize,
    /// Sensors polled, round-robin across ticks; `None`: every sensor.
    pub max_sensors: Option<usize>,
    /// Pending actions polled again, round-robin across ticks; `None`: every one.
    pub max_pending_actions: Option<usize>,
    /// Intentions stepped.
    pub max_intentions: usize,
}

/// The default budget: every message, sensor and pending action; one event and one
/// intention.
pub open spec fn default_budget() -> TickBudget {
    TickBudget { max_messages: None, max_events: 1, max_sensors: None, max_pending_actions: None, max_intentions: 1 }
}

impl Default for TickBudget {
    /// Every message, sensor and pending action; one event and one intention.
    fn default() -> (r: Self)
        ensures
            r == default_budget(),
    {
        TickBudget { max_messages: None, max_events: 1, max_sensors: None, max_pending_actions: None, max_intentions: 1 }
    }
}

/// How many of `available` items one tick takes on, under the limit (all without one).
pub fn budgeted(limit: Option<usize>, available: usize) -> (r: usize)
    ensures
        r == match limit {
            Some(n) => if n < available { n } else { available },
            None => available,
        },
{
    match limit {
        Some(n) => if n < available { n } else { available },
        None => available,
    }
}

} // verus!
