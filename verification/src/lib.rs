//! A model of bounded concurrent resource access: a fixed population of
//! agents alternates between an unconstrained "think" phase and an "eat"
//! phase admitted by a capacity-bounded gate, with shared per-agent event
//! counters and cooperative shutdown.

mod gate;
mod registry;
mod report;
mod system;
mod timing;

pub use gate::Permit;
pub use gate::ResourceGate;
pub use registry::PhaseCounts;
pub use registry::StatsRegistry;
pub use report::ReportLine;
pub use report::report;
pub use system::AgentState;
pub use system::StepKind;
pub use system::SystemModel;
pub use timing::random_duration;
