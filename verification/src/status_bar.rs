use vstd::prelude::*;

verus! {

/// Retention priority of a status slot when the bar is too narrow
#[derive(Clone, Copy, Debug, PartialEq, Eq, Structural, Hash)]
pub enum StatusBarPriority {
    /// Omitted before normal-priority slots
    Low,
    /// Standard status information
    Normal,
    /// Retained before normal-priority slots
    High,
    /// Retained before every other category
    Critical,
}

/// The retention weight of a priority
pub open spec fn priority_weight(priority: StatusBarPriority) -> u16 {
    match priority {
        StatusBarPriority::Low => 0,
        StatusBarPriority::Normal => 100,
        StatusBarPriority::High => 200,
        StatusBarPriority::Critical => 300,
    }
}

impl StatusBarPriority {
    /// Returns the retention weight; a higher weight is kept longer
    pub fn value(self) -> (weight: u16)
        ensures
            weight == priority_weight(self),
    {
        match self {
            StatusBarPriority::Low => 0,
            StatusBarPriority::Normal => 100,
            StatusBarPriority::High => 200,
            StatusBarPriority::Critical => 300,
        }
    }
}

impl Default for StatusBarPriority {
    fn default() -> (priority: Self)
        ensures
            priority == StatusBarPriority::Normal,
    {
        StatusBarPriority::Normal
    }
}

/// Priorities are retained in the order low, normal, high, critical
pub proof fn lemma_priority_order()
    ensures
        priority_weight(StatusBarPriority::Low) < priority_weight(StatusBarPriority::Normal),
        priority_weight(StatusBarPriority::Normal) < priority_weight(StatusBarPriority::High),
        priority_weight(StatusBarPriority::High) < priority_weight(StatusBarPriority::Critical),
{
}

} // verus!
