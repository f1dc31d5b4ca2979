//! A small build engine: rules turn input artifacts into output artifacts,
//! a graph links them, a resolver orders them and an executor runs them.

mod artifact;
mod cache;
pub mod doze;
pub mod copy;
mod execute;
mod graph;
mod logs;
mod procedure;
mod resolver;
mod rule;
mod schedule;
mod text;

pub use artifact::{Artifact, ArtifactTag};
pub use cache::{tmp_marker_path, ArtifactStore, Cache, CacheError, LocalCache, PrimordialLedger};
pub use execute::{execute, ExecuteError, Execution, ExecutionReport, Step};
pub use graph::{AddRuleError, Graph};
pub use logs::log_dir;
pub use resolver::{primordial_rules, Plan, PlanningError, ResolveMode, Resolver, TopologicalResolver};
pub use procedure::{Procedure, ProcedureError, ProcedureId, Registry};
pub use rule::{source_checksum, Rule, RuleError, RuleView};
