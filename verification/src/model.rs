//! Plain data records delivered by the external probes.

use vstd::prelude::*;

verus! {

/// Scheduling state of one fiber inside a snapshot.
#[derive(Clone, Copy, PartialEq, Eq, Structural, Debug)]
pub enum FiberStatus {
    Running,
    Suspended,
    Finishing,
    Done,
}

impl FiberStatus {
    /// The text shown in the aligned secondary column of the fiber tree.
    pub open spec fn spec_label(self) -> Seq<char> {
        match self {
            FiberStatus::Running => "Running"@,
            FiberStatus::Suspended => "Suspended"@,
            FiberStatus::Finishing => "Finishing"@,
            FiberStatus::Done => "Done"@,
        }
    }

    pub fn label(&self) -> (r: &'static str)
        ensures
            r@ == self.spec_label(),
    {
        match self {
            FiberStatus::Running => "Running",
            FiberStatus::Suspended => "Suspended",
            FiberStatus::Finishing => "Finishing",
            FiberStatus::Done => "Done",
        }
    }
}

/// One fiber record of a snapshot: unique id, optional parent reference,
/// status and a multi-line dump text.
#[derive(Clone, Debug)]
pub struct Fiber {
    pub id: u64,
    pub parent_id: Option<u64>,
    pub status: FiberStatus,
    pub dump: String,
}

/// Per-snapshot tally of fibers by status.
#[derive(Clone, Copy, PartialEq, Eq, Structural, Debug)]
pub struct FiberCount {
    pub done: u64,
    pub suspended: u64,
    pub running: u64,
    pub finishing: u64,
}

/// One actor record of a snapshot: unique id, optional parent reference and
/// a display name.
#[derive(Clone, Debug)]
pub struct ActorTreeNode {
    pub id: u64,
    pub parent_id: Option<u64>,
    pub name: String,
}

/// Gauge values of the primary query-execution pool.
#[derive(Clone, Copy, PartialEq, Eq, Structural, Debug)]
pub struct SlickMetrics {
    pub active_threads: u64,
    pub queue_size: u64,
}

/// Static pool configuration, overwritten wholesale on update.
#[derive(Clone, Copy, PartialEq, Eq, Structural, Debug)]
pub struct SlickConfig {
    pub max_threads: u64,
    pub max_queue_size: u64,
}

/// Gauge values of the secondary pooling layer, when present.
#[derive(Clone, Copy, PartialEq, Eq, Structural, Debug)]
pub struct HikariMetrics {
    pub active: u64,
    pub idle: u64,
    pub waiting: u64,
    pub total: u64,
}

/// Endpoint configuration for the pool-monitoring source.
pub struct JMXConnectionSettings {
    pub address: String,
}

/// Endpoint configuration for the actor-system source.
pub struct AkkaSettings {
    pub tree_address: String,
    pub count_address: String,
}

/// A rendered fiber row: the display label and the dump text behind it.
pub struct UIFiber {
    pub label: String,
    pub dump: String,
}

} // verus!
