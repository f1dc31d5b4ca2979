use vstd::prelude::*;

use crate::cache::CacheError;
use crate::graph::Graph;
use crate::resolver::Plan;
use crate::rule::RuleError;
use crate::text::{joined, owned};

verus! {

#[derive(Debug)]
pub enum ExecuteError {
    Cache(CacheError),
    Rule(RuleError),
    RuleNotFound(String),
}

impl ExecuteError {
    /// The message that describes the error.
    pub open spec fn message(&self) -> Seq<char> {
        match self {
            ExecuteError::Cache(e) => e.message(),
            ExecuteError::Rule(e) => e.message(),
            ExecuteError::RuleNotFound(id) => "rule ["@ + id@ + "] resolved for execution but doesn't exist"@,
        }
    }

    /// The message that describes the error.
    pub fn to_string(&self) -> (res: String)
        ensures
            res@ == self.message(),
    {
        match self {
            ExecuteError::Cache(e) => e.to_string(),
            ExecuteError::Rule(e) => e.to_string(),
            ExecuteError::RuleNotFound(id) => {
                let s = joined(owned("rule ["), id.as_str());
                joined(s, "] resolved for execution but doesn't exist")
            }
        }
    }
}

/// How many planned rules ran and how many had their outputs fetched from
/// the cache.
#[derive(Debug)]
pub struct ExecutionReport {
    pub executed: usize,
    pub fetched: usize,
}

/// What the executor asks for next. The cache's work is done by the caller,
/// who hands back what the cache answered.
pub enum Step {
    /// The source checksum of the rule at this position of the graph: the
    /// checksum of the contents of its inputs, read now.
    ReadSources(usize),
    /// Whether the cache holds fresh outputs of the rule at this position,
    /// for these sources (`ArtifactStore::is_fresh`).
    CheckFresh(usize, String),
    /// Put the cached outputs of the rule at this position, for these
    /// sources, in place (`ArtifactStore::ensure_artifacts`).
    Fetch(usize, String),
    /// Run the rule at this position (`Rule::execute` with the registry);
    /// these are its sources.
    Run(usize, String),
    /// Store the outputs of the rule at this position, which has just run,
    /// for these sources (`ArtifactStore::store_artifacts`).
    Store(usize, String),
    /// Write the ledger down (`PrimordialLedger::flush`).
    Flush,
    /// The execution is over.
    Done(Result<ExecutionReport, ExecuteError>),
}

/// Where the execution of a plan stands: the plan's rules before `next` are
/// done, and the rule at `next` is the one at `pending` in the graph.
pub struct Execution {
    next: usize,
    pending: usize,
    executed: usize,
    fetched: usize,
}

impl Execution {
    /// The number of planned rules that are done.
    pub closed spec fn done(&self) -> nat {
        self.next as nat
    }

    /// The number of rules that ran.
    pub closed spec fn ran(&self) -> nat {
        self.executed as nat
    }

    /// The number of rules whose outputs came from the cache.
    pub closed spec fn reused(&self) -> nat {
        self.fetched as nat
    }

    /// The position in the graph of the rule whose turn it is.
    pub closed spec fn waiting(&self) -> nat {
        self.pending as nat
    }

    /// It is the turn of the rule that the plan names at `done`, and every
    /// rule before it either ran or was fetched.
    pub open spec fn waits_on(&self, plan: &Plan, graph: &Graph) -> bool {
        &&& self.done() < plan.rules@.len()
        &&& self.waiting() < graph.model().len()
        &&& graph.model()[self.waiting() as int].id == plan.rules@[self.done() as int]@
        &&& self.ran() + self.reused() == self.done()
    }

    /// Every planned rule either ran or was fetched.
    pub open spec fn finished(&self, plan: &Plan) -> bool {
        &&& self.done() == plan.rules@.len()
        &&& self.ran() + self.reused() == self.done()
    }
}

/// What a step says once the rule at `next` is reached: ask for its sources
/// if the graph holds it, write the ledger down past the end of the plan,
/// or end.
pub open spec fn step_at(step: Step, exec: Execution, plan: &Plan, graph: &Graph) -> bool {
    match step {
        Step::ReadSources(i) => exec.waits_on(plan, graph) && exec.waiting() == i,
        Step::Flush => exec.finished(plan),
        Step::Done(Err(ExecuteError::RuleNotFound(id))) => exec.done() < plan.rules@.len()
            && id@ == plan.rules@[exec.done() as int]@
            && !crate::graph::rule_ids(graph.model()).contains(id@),
        _ => false,
    }
}

/// Moves to the rule at `next`: asks for its sources, or, past the end of
/// the plan, for the ledger to be written down.
fn reach(exec: Execution, plan: &Plan, graph: &Graph) -> (res: (Execution, Step))
    requires
        graph.wf(),
        exec.done() <= plan.rules@.len(),
        exec.ran() + exec.reused() == exec.done(),
    ensures
        res.0.done() == exec.done(),
        res.0.ran() == exec.ran(),
        res.0.reused() == exec.reused(),
        step_at(res.1, res.0, plan, graph),
{
    if exec.next == plan.rules.len() {
        (exec, Step::Flush)
    } else {
        let id = &plan.rules[exec.next];
        match graph.find_rule(id.as_str()) {
            Some(i) => {
                let e = Execution { pending: i, ..exec };
                (e, Step::ReadSources(i))
            }
            None => (exec, Step::Done(Err(ExecuteError::RuleNotFound(id.clone())))),
        }
    }
}

/// Starts executing `plan`, the rules one after another: the first step asks
/// for the sources of the first rule, for the ledger to be written down when
/// the plan is empty, or ends when the first rule is not in the graph.
pub fn execute(plan: &Plan, graph: &Graph) -> (res: (Execution, Step))
    requires
        graph.wf(),
    ensures
        res.0.done() == 0,
        res.0.ran() == 0,
        res.0.reused() == 0,
        step_at(res.1, res.0, plan, graph),
{
    let start = Execution { next: 0, pending: 0, executed: 0, fetched: 0 };
    reach(start, plan, graph)
}

impl Execution {
    /// Continues with the source checksum of the waiting rule: the cache is
    /// asked whether it holds fresh outputs for it; a failure to read the
    /// sources ends the execution with that error.
    pub fn resume(self, plan: &Plan, graph: &Graph, source: Result<String, RuleError>) -> (res: (Execution, Step))
        requires
            self.waits_on(plan, graph),
        ensures
            res.0 == self,
            match source {
                Ok(s) => res.1 == Step::CheckFresh(self.waiting() as usize, s),
                Err(e) => res.1 == Step::Done(Err(ExecuteError::Rule(e))),
            },
    {
        let i = self.pending;
        match source {
            Ok(s) => (self, Step::CheckFresh(i, s)),
            Err(e) => (self, Step::Done(Err(ExecuteError::Rule(e)))),
        }
    }

    /// Continues with the cache's answer on the freshness of the waiting
    /// rule's outputs for the sources `source`: when fresh they are fetched;
    /// when not, the rule runs; a failure of the cache ends the execution
    /// with that error.
    pub fn resume_fresh(self, plan: &Plan, graph: &Graph, source: String, fresh: Result<bool, CacheError>) -> (res: (Execution, Step))
        requires
            self.waits_on(plan, graph),
        ensures
            res.0 == self,
            match fresh {
                Err(e) => res.1 == Step::Done(Err(ExecuteError::Cache(e))),
                Ok(true) => res.1 == Step::Fetch(self.waiting() as usize, source),
                Ok(false) => res.1 == Step::Run(self.waiting() as usize, source),
            },
    {
        let i = self.pending;
        match fresh {
            Err(e) => (self, Step::Done(Err(ExecuteError::Cache(e)))),
            Ok(true) => (self, Step::Fetch(i, source)),
            Ok(false) => (self, Step::Run(i, source)),
        }
    }

    /// Continues once the waiting rule has run: its outputs are stored; a
    /// failure of the rule ends the execution with that error.
    pub fn resume_ran(self, plan: &Plan, graph: &Graph, source: String, ran: Result<(), RuleError>) -> (res: (Execution, Step))
        requires
            self.waits_on(plan, graph),
        ensures
            res.0 == self,
            match ran {
                Ok(()) => res.1 == Step::Store(self.waiting() as usize, source),
                Err(e) => res.1 == Step::Done(Err(ExecuteError::Rule(e))),
            },
    {
        let i = self.pending;
        match ran {
            Ok(()) => (self, Step::Store(i, source)),
            Err(e) => (self, Step::Done(Err(ExecuteError::Rule(e)))),
        }
    }

    /// Continues once the cache has put the waiting rule's outputs in place:
    /// the rule counts as fetched and the next rule is reached; a failure of
    /// the cache ends the execution with that error.
    pub fn resume_fetched(self, plan: &Plan, graph: &Graph, fetched: Result<(), CacheError>) -> (res: (Execution, Step))
        requires
            graph.wf(),
            self.waits_on(plan, graph),
        ensures
            fetched matches Err(e) ==> res.0 == self && res.1 == Step::Done(Err(ExecuteError::Cache(e))),
            fetched is Ok ==> {
                &&& res.0.done() == self.done() + 1
                &&& res.0.ran() == self.ran()
                &&& res.0.reused() == self.reused() + 1
                &&& step_at(res.1, res.0, plan, graph)
            },
    {
        match fetched {
            Err(e) => (self, Step::Done(Err(ExecuteError::Cache(e)))),
            Ok(()) => {
                let n = plan.rules.len();
                assert(self.fetched < n);
                let exec = Execution { next: self.next + 1, fetched: self.fetched + 1, ..self };
                reach(exec, plan, graph)
            }
        }
    }

    /// Continues once the cache has stored the outputs of the waiting rule,
    /// which ran: the rule counts as run and the next rule is reached; a
    /// failure of the cache ends the execution with that error.
    pub fn resume_stored(self, plan: &Plan, graph: &Graph, stored: Result<(), CacheError>) -> (res: (Execution, Step))
        requires
            graph.wf(),
            self.waits_on(plan, graph),
        ensures
            stored matches Err(e) ==> res.0 == self && res.1 == Step::Done(Err(ExecuteError::Cache(e))),
            stored is Ok ==> {
                &&& res.0.done() == self.done() + 1
                &&& res.0.ran() == self.ran() + 1
                &&& res.0.reused() == self.reused()
                &&& step_at(res.1, res.0, plan, graph)
            },
    {
        match stored {
            Err(e) => (self, Step::Done(Err(ExecuteError::Cache(e)))),
            Ok(()) => {
                let n = plan.rules.len();
                assert(self.executed < n);
                let exec = Execution { next: self.next + 1, executed: self.executed + 1, ..self };
                reach(exec, plan, graph)
            }
        }
    }

    /// Ends the execution once the ledger is written down: the report of how
    /// many rules ran and how many were fetched, or the cache's error.
    pub fn finish(self, plan: &Plan, flushed: Result<(), CacheError>) -> (res: Result<ExecutionReport, ExecuteError>)
        requires
            self.finished(plan),
        ensures
            match flushed {
                Ok(()) => res matches Ok(report) && report.executed == self.ran() && report.fetched == self.reused()
                    && report.executed + report.fetched == plan.rules@.len(),
                Err(e) => res == Err::<ExecutionReport, ExecuteError>(ExecuteError::Cache(e)),
            },
    {
        match flushed {
            Ok(()) => Ok(ExecutionReport { executed: self.executed, fetched: self.fetched }),
            Err(e) => Err(ExecuteError::Cache(e)),
        }
    }
}

} // verus!
