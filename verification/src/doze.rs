//! The first sketch of the engine: a registry, a graph that holds nothing
//! yet, and the resolver that orders its rules.

use std::collections::VecDeque;

use vstd::prelude::*;

use crate::procedure::{call_factory, made_by};
use crate::text::{joined, owned, same_text};

verus! {

/// The name under which a procedure is registered.
#[derive(Debug, Clone, PartialEq, Eq, Hash)]
pub struct ProcedureId(pub String);

#[derive(Debug)]
pub enum ProcedureError {
    NotFound(String),
    ExecFailed(String),
}

impl ProcedureError {
    /// The message that describes the error.
    pub open spec fn message(&self) -> Seq<char> {
        match self {
            ProcedureError::NotFound(id) => "procedure not found: "@ + id@,
            ProcedureError::ExecFailed(msg) => "execution failed: "@ + msg@,
        }
    }

    /// The message that describes the error.
    pub fn to_string(&self) -> (res: String)
        ensures
            res@ == self.message(),
    {
        match self {
            ProcedureError::NotFound(id) => joined(owned("procedure not found: "), id.as_str()),
            ProcedureError::ExecFailed(msg) => joined(owned("execution failed: "), msg.as_str()),
        }
    }
}

/// The work that a rule performs. Users implement it; of an implementation
/// it is only claimed that what a run returns is one of its `outcome`s for
/// the rule it was run on.
pub trait Procedure {
    /// Whether a run of the procedure on `rule` may end with `res`. Unless an
    /// implementation says more, any result may be given.
    closed spec fn outcome(&self, rule: Rule, res: Result<(), ProcedureError>) -> bool {
        true
    }

    fn exec(&mut self, rule: &mut Rule) -> (res: Result<(), ProcedureError>)
        ensures
            old(self).outcome(*old(rule), res);
}

/// Procedure factories by name. 
pub struct Registry<F> {
    procedures: Vec<(String, F)>,
}

impl<F> Registry<F> {
    /// The registered names, in registration order.
    pub closed spec fn ids(&self) -> Seq<Seq<char>> {
        self.procedures@.map_values(|p: (String, F)| p.0@)
    }

    /// The factory registered under the name at `i`.
    pub closed spec fn factory_at(&self, i: int) -> F {
        self.procedures@[i].1
    }

    /// Each name is registered at most once.
    pub closed spec fn wf(&self) -> bool {
        forall|i: int, j: int| 0 <= i < j < self.ids().len() ==> self.ids()[i] != self.ids()[j]
    }

    /// The names and the factories registered under them.
    pub open spec fn view(&self) -> Map<Seq<char>, F> {
        Map::new(
            |k: Seq<char>| self.ids().contains(k),
            |k: Seq<char>| self.factory_at(self.ids().index_of(k)),
        )
    }

    /// An empty registry.
    pub fn new() -> (res: Self)
        ensures
            res.wf(),
            res.view() == Map::<Seq<char>, F>::empty(),
    {
        let res = Registry { procedures: Vec::new() };
        assert(res.view() =~= Map::<Seq<char>, F>::empty());
        res
    }

    /// The position of the name `id`, if it is registered.
    fn position(&self, id: &str) -> (res: Option<usize>)
        requires
            self.wf(),
        ensures
            match res {
                Some(i) => i < self.ids().len() && self.ids()[i as int] == id@,
                None => !self.ids().contains(id@),
            },
    {
        let mut i: usize = 0;
        while i < self.procedures.len()
            invariant
                self.wf(),
                i <= self.procedures@.len(),
                forall|j: int| 0 <= j < i ==> self.ids()[j] != id@,
            decreases self.procedures@.len() - i,
        {
            if same_text(self.procedures[i].0.as_str(), id) {
                return Some(i);
            }
            i = i + 1;
        }
        None
    }

    /// Registers `factory` under `id`, in place of any factory registered there before.
    pub fn register(&mut self, id: String, factory: F)
        where
            F: Fn() -> Box<dyn Procedure>,
        requires
            old(self).wf(),
        ensures
            final(self).wf(),
            final(self).view() == old(self).view().insert(id@, factory),
    {
        proof { lemma_view_at(self); }
        match self.position(id.as_str()) {
            Some(i) => {
                let ghost before = *self;
                self.procedures.set(i, (id, factory));
                proof {
                    assert(self.ids() =~= before.ids());
                    assert(self.wf());
                    assert forall|j: int| 0 <= j < self.ids().len() implies j == self.ids().index_of(self.ids()[j]) by {
                        lemma_unique_index(self, j);
                    }
                    assert(self.view() =~= before.view().insert(id@, factory));
                }
            }
            None => {
                let ghost before = *self;
                self.procedures.push((id, factory));
                proof {
                    assert(self.ids() =~= before.ids().push(id@));
                    assert(self.wf());
                    assert forall|j: int| 0 <= j < self.ids().len() implies j == self.ids().index_of(self.ids()[j]) by {
                        lemma_unique_index(self, j);
                    }
                    lemma_unique_index(self, before.ids().len() as int);
                    assert(self.ids()[before.ids().len() as int] == id@);
                    assert forall|k: Seq<char>| #[trigger] before.ids().contains(k) implies
                        before.ids().index_of(k) == self.ids().index_of(k) by {
                        let i = before.ids().index_of(k);
                        lemma_unique_index(&before, i);
                        lemma_unique_index(self, i);
                    }
                    let m = before.view().insert(id@, factory);
                    assert forall|k: Seq<char>| #[trigger] self.view().dom().contains(k) <==> m.dom().contains(k) by {
                        if self.ids().contains(k) && k != id@ {
                            let i = self.ids().index_of(k);
                            assert(before.ids()[i] == k);
                        }
                        if before.ids().contains(k) {
                            let i = before.ids().index_of(k);
                            assert(self.ids()[i] == k);
                        }
                        if k == id@ {
                            assert(self.ids()[before.ids().len() as int] == k);
                        }
                    }
                    assert forall|k: Seq<char>| #[trigger] self.view().dom().contains(k) implies self.view()[k] == m[k] by {
                        if k != id@ {
                            let i = self.ids().index_of(k);
                            assert(before.ids()[i] == k);
                            assert(before.ids().contains(k));
                            assert(self.factory_at(i) == before.factory_at(i));
                        }
                    }
                    assert(self.view() =~= m);
                }
            }
        }
    }
}

proof fn lemma_unique_index<F>(r: &Registry<F>, j: int)
    requires
        r.wf(),
        0 <= j < r.ids().len(),
    ensures
        r.ids().index_of(r.ids()[j]) == j,
{
    let k = r.ids().index_of(r.ids()[j]);
    assert(r.ids().contains(r.ids()[j]));
    if k != j {
        assert(r.ids()[k] == r.ids()[j]);
    }
}

proof fn lemma_view_at<F>(r: &Registry<F>)
    requires
        r.wf(),
    ensures
        forall|j: int| 0 <= j < r.ids().len() ==> #[trigger] r.view()[r.ids()[j]] == r.factory_at(j),
{
    assert forall|j: int| 0 <= j < r.ids().len() implies #[trigger] r.view()[r.ids()[j]] == r.factory_at(j) by {
        lemma_unique_index(r, j);
    }
}

/// A boxed procedure works as the procedure in the box.
impl Procedure for Box<dyn Procedure> {
    open spec fn outcome(&self, rule: Rule, res: Result<(), ProcedureError>) -> bool {
        (**self).outcome(rule, res)
    }

    fn exec(&mut self, rule: &mut Rule) -> (res: Result<(), ProcedureError>) {
        (**self).exec(rule)
    }
}

impl<P, F: Fn() -> P> Registry<F> {
    /// Every registered factory can be called.
    pub open spec fn callable(&self) -> bool {
        forall|k: Seq<char>| self.view().dom().contains(k) ==> call_requires(#[trigger] self.view()[k], ())
    }

    /// A new procedure from the factory registered under `id`.
    pub fn create(&self, id: &str) -> (res: Result<P, ProcedureError>)
        requires
            self.wf(),
            self.callable(),
        ensures
            match res {
                Ok(p) => self.view().dom().contains(id@) && made_by(self.view()[id@], p),
                Err(e) => !self.view().dom().contains(id@) && (e matches ProcedureError::NotFound(s) && s@ == id@),
            },
    {
        proof { lemma_view_at(self); }
        match self.position(id) {
            Some(i) => {
                proof {
                    assert(self.view().dom().contains(id@));
                    assert(self.view()[id@] == self.factory_at(i as int));
                    assert(call_requires(self.view()[id@], ()));
                }
                Ok(call_factory(&self.procedures[i].1))
            }
            None => Err(ProcedureError::NotFound(owned(id))),
        }
    }
}

/// Where an artifact lives.
pub struct Location(String);

/// An artifact as the sketch sees it. Users implement it; of an
/// implementation it is only claimed that `creator_rule` hands out the
/// writer that `creator` names.
pub trait Artifact {
    fn location(&self) -> Location;

    /// The name of the rule that writes the artifact, if any.
    spec fn creator(&self) -> Option<Seq<char>>;

    fn creator_rule(&self) -> (res: Option<String>)
        ensures
            match res {
                Some(w) => self.creator() == Some(w@),
                None => self.creator() is None,
            };

    fn consumer_rules(&self) -> Vec<String>;
}

pub enum ArtifactSelector {
    Inputs,
    Outputs,
    Both,
    Neither,
}

pub struct RuleOptions {
    pub ordered: ArtifactSelector,
    pub grouped: ArtifactSelector,
}

pub struct Rule {
    pub opts: RuleOptions,
    pub proc_id: ProcedureId,
    pub input_ids: Vec<String>,
    pub output_ids: Vec<String>,
}

/// Rules and artifacts by name. The sketch offers no way to add either, so a
/// graph holds none.
pub struct Graph {
    rules: Vec<(String, Rule)>,
    artifacts: Vec<(String, Box<dyn Artifact>)>,
}

impl Graph {
    #[verifier::type_invariant]
    spec fn holds_nothing(self) -> bool {
        self.rules@.len() == 0 && self.artifacts@.len() == 0
    }

    /// The number of rules.
    pub closed spec fn rule_count(&self) -> nat {
        self.rules@.len()
    }

    /// An empty graph.
    pub fn new() -> (res: Graph)
        ensures
            res.rule_count() == 0,
    {
        Graph { rules: Vec::new(), artifacts: Vec::new() }
    }
}

/// The rules to run, by name, in order.
pub struct Plan {
    pub rules: Vec<String>,
}

impl Plan {
    /// An empty plan.
    pub fn new() -> (res: Plan)
        ensures
            res.rules@.len() == 0,
    {
        Plan { rules: Vec::new() }
    }
}

pub enum ResolveMode {
    Terse,
    Full,
}

/// The errors of planning, of which the sketch has none yet: its resolver
/// never returns this.
#[derive(Debug)]
pub enum PlanningError {
    NotImplemented,
}

impl PlanningError {
    /// The message that describes the error.
    pub fn to_string(&self) -> (res: String)
        ensures
            res@ == "not implemented yet!"@,
    {
        owned("not implemented yet!")
    }
}

/// A way to order the rules of a graph into a plan.
pub trait Resolver {
    fn resolve(&self, graph: &Graph, mode: ResolveMode) -> Result<Plan, PlanningError>;
}

/// The resolver that orders the rules by Kahn's algorithm.
pub struct TopologicalResolver {}

impl Resolver for TopologicalResolver {
    /// The rules none of whose inputs has a writer start the queue; each rule
    /// taken from the queue is planned, and the readers of its outputs whose
    /// other inputs have planned writers join the queue. A graph of the
    /// sketch holds no rules, so the plan is empty.
    fn resolve(&self, graph: &Graph, mode: ResolveMode) -> (res: Result<Plan, PlanningError>)
        ensures
            res matches Ok(plan) && plan.rules@.len() == graph.rule_count(),
    {
        proof { use_type_invariant(graph); }
        let mut plan = Plan::new();
        let mut queue: VecDeque<String> = VecDeque::new();
        let mut i: usize = 0;
        while i < graph.rules.len()
            invariant
                graph.rules@.len() == 0,
                queue@.len() == 0,
                plan.rules@.len() == 0,
            decreases graph.rules@.len() - i,
        {
            let (rule_id, rule) = &graph.rules[i];
            let mut primordial = true;
            let mut j: usize = 0;
            while j < rule.input_ids.len()
                decreases rule.input_ids@.len() - j,
            {
                if let Some(a) = find(&graph.artifacts, rule.input_ids[j].as_str()) {
                    if graph.artifacts[a].1.creator_rule().is_some() {
                        primordial = false;
                    }
                }
                j = j + 1;
            }
            if primordial {
                queue.push_back(rule_id.clone());
            }
            i = i + 1;
        }
        while queue.len() > 0
            invariant
                graph.rules@.len() == 0,
                queue@.len() == 0,
                plan.rules@.len() == 0,
            decreases queue@.len(),
        {
            let rule_id = match queue.pop_front() {
                Some(x) => x,
                None => break,
            };
            plan.rules.push(rule_id.clone());
            let r = match find(&graph.rules, rule_id.as_str()) {
                Some(r) => r,
                None => break,
            };
            let outputs = &graph.rules[r].1.output_ids;
            let mut k: usize = 0;
            while k < outputs.len()
                invariant
                    graph.rules@.len() == 0,
                decreases outputs@.len() - k,
            {
                if let Some(a) = find(&graph.artifacts, outputs[k].as_str()) {
                    let consumers = graph.artifacts[a].1.consumer_rules();
                    let mut m: usize = 0;
                    while m < consumers.len()
                        invariant
                            graph.rules@.len() == 0,
                            k < outputs@.len(),
                        decreases consumers@.len() - m,
                    {
                        if let Some(c) = find(&graph.rules, consumers[m].as_str()) {
                            if ready(graph, c, outputs[k].as_str(), &plan) {
                                queue.push_back(consumers[m].clone());
                            }
                        }
                        m = m + 1;
                    }
                }
                k = k + 1;
            }
        }
        Ok(plan)
    }
}

/// Whether the plan names the rule `name`.
spec fn planned(plan: &Plan, name: Seq<char>) -> bool {
    exists|p: int| 0 <= p < plan.rules@.len() && plan.rules@[p]@ == name
}

/// Whether the artifact `name`, looked up as the graph looks it up, has no
/// writer or a planned one.
spec fn settled(graph: &Graph, name: Seq<char>, plan: &Plan) -> bool {
    forall|a: int|
        #[trigger] first_entry(graph.artifacts@, name, a) ==> match graph.artifacts@[a].1.creator() {
            Some(w) => planned(plan, w),
            None => true,
        }
}

/// Whether each input of the rule at `c`, besides `output`, is settled.
spec fn ready_for(graph: &Graph, c: int, output: Seq<char>, plan: &Plan) -> bool {
    forall|j: int|
        0 <= j < graph.rules@[c].1.input_ids@.len() && #[trigger] graph.rules@[c].1.input_ids@[j]@ != output
            ==> settled(graph, graph.rules@[c].1.input_ids@[j]@, plan)
}

/// Whether each input of the rule at `c`, besides `output`, has no writer or
/// a planned one.
fn ready(graph: &Graph, c: usize, output: &str, plan: &Plan) -> (res: bool)
    requires
        c < graph.rules@.len(),
    ensures
        res == ready_for(graph, c as int, output@, plan),
{
    let inputs = &graph.rules[c].1.input_ids;
    let mut j: usize = 0;
    while j < inputs.len()
        invariant
            c < graph.rules@.len(),
            inputs == &graph.rules@[c as int].1.input_ids,
            j <= inputs@.len(),
            forall|k: int| 0 <= k < j && #[trigger] inputs@[k]@ != output@ ==> settled(graph, inputs@[k]@, plan),
        decreases inputs@.len() - j,
    {
        if !same_text(output, inputs[j].as_str()) {
            let found = find(&graph.artifacts, inputs[j].as_str());
            proof {
                assert forall|a: int| #[trigger] first_entry(graph.artifacts@, inputs@[j as int]@, a)
                    implies found == Some(a as usize) by {
                    match found {
                        Some(b) => {
                            if a < b { assert(graph.artifacts@[a].0@ != inputs@[j as int]@); }
                            if b < a { assert(graph.artifacts@[b as int].0@ != inputs@[j as int]@); }
                        }
                        None => {}
                    }
                }
            }
            if let Some(a) = found {
                if let Some(creator) = graph.artifacts[a].1.creator_rule() {
                    let mut planned = false;
                    let mut p: usize = 0;
                    while p < plan.rules.len()
                        invariant
                            p <= plan.rules@.len(),
                            planned == exists|q: int| 0 <= q < p && plan.rules@[q]@ == creator@,
                        decreases plan.rules@.len() - p,
                    {
                        if same_text(plan.rules[p].as_str(), creator.as_str()) {
                            planned = true;
                        }
                        p = p + 1;
                    }
                    if !planned {
                        proof {
                            assert(first_entry(graph.artifacts@, inputs@[j as int]@, a as int));
                            assert(!settled(graph, inputs@[j as int]@, plan));
                        }
                        return false;
                    }
                }
            }
            proof {
                assert(settled(graph, inputs@[j as int]@, plan));
            }
        }
        j = j + 1;
    }
    true
}

/// Whether `i` is the first position of an entry named `id`.
spec fn first_entry<T>(entries: Seq<(String, T)>, id: Seq<char>, i: int) -> bool {
    &&& 0 <= i < entries.len()
    &&& entries[i].0@ == id
    &&& forall|j: int| 0 <= j < i ==> entries[j].0@ != id
}

/// The position of the first entry named `id`, if any.
fn find<T>(entries: &Vec<(String, T)>, id: &str) -> (res: Option<usize>)
    ensures
        match res {
            Some(i) => first_entry(entries@, id@, i as int),
            None => forall|j: int| 0 <= j < entries@.len() ==> entries@[j].0@ != id@,
        },
{
    let mut i: usize = 0;
    while i < entries.len()
        invariant
            i <= entries@.len(),
            forall|j: int| 0 <= j < i ==> entries@[j].0@ != id@,
        decreases entries@.len() - i,
    {
        if same_text(entries[i].0.as_str(), id) {
            return Some(i);
        }
        i = i + 1;
    }
    None
}

} // verus!
