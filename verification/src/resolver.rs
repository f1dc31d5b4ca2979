use std::collections::VecDeque;

use vstd::prelude::*;

use crate::artifact::{texts, ArtifactTag};
use crate::cache::PrimordialLedger;
use crate::graph::{consumers_of, creator_of, find_artifact, repeat, rule_ids, well_formed_rules, Graph};
use crate::rule::{tag_texts, RuleError, RuleView};
use crate::text::{joined, owned, same_text};

verus! {

broadcast use {vstd::seq_lib::group_seq_properties, vstd::seq_lib::group_to_multiset_ensures};

/// The rules to run, by checksum, in the order to run them.
pub struct Plan {
    pub rules: Vec<String>,
}

impl Plan {
    /// An empty plan.
    pub fn new() -> (res: Plan)
        ensures
            res.rules@.len() == 0,
    {
        Plan { rules: Vec::new() }
    }
}

impl Default for Plan {
    fn default() -> (res: Plan)
        ensures
            res.rules@.len() == 0,
    {
        Plan::new()
    }
}

#[derive(Debug)]
pub enum PlanningError {
    Cycle,
    SourceUnreadable(RuleError),
}

impl PlanningError {
    /// The message that describes the error.
    pub open spec fn message(&self) -> Seq<char> {
        match self {
            PlanningError::Cycle => "cycle detected in Graph"@,
            PlanningError::SourceUnreadable(e) => "could not compute source checksum: "@ + e.message(),
        }
    }

    /// The message that describes the error.
    pub fn to_string(&self) -> (res: String)
        ensures
            res@ == self.message(),
    {
        match self {
            PlanningError::Cycle => owned("cycle detected in Graph"),
            PlanningError::SourceUnreadable(e) => {
                let m = e.to_string();
                joined(owned("could not compute source checksum: "), m.as_str())
            }
        }
    }
}

/// Which primordial rules start the plan: `Full` starts from all of them;
/// `Terse` leaves out those that the ledger reports as seen with the same
/// sources in the last run, and so every rule that depends on them.
#[derive(Clone, Copy)]
pub enum ResolveMode {
    Terse,
    Full,
}

// ---------------------------------------------------------------------------
// Kahn's algorithm over the rules
// ---------------------------------------------------------------------------

/// The rule whose checksum is `id`.
pub open spec fn rule_named(g: Seq<RuleView>, id: Seq<char>) -> RuleView {
    g[rule_ids(g).index_of(id)]
}

/// A rule none of whose inputs is written by a rule of the graph.
pub open spec fn is_primordial(g: Seq<RuleView>, r: RuleView) -> bool {
    forall|t: Seq<char>| #[trigger] r.ins.contains(t) ==> creator_of(g, t) is None
}

/// The checksums of the primordial rules among the first `n`, in order.
pub open spec fn primordial_upto(g: Seq<RuleView>, n: int) -> Seq<Seq<char>>
    decreases n,
{
    if n <= 0 {
        Seq::empty()
    } else if is_primordial(g, g[n - 1]) {
        primordial_upto(g, n - 1).push(g[n - 1].id)
    } else {
        primordial_upto(g, n - 1)
    }
}

/// The checksums of the primordial rules, in the order the rules were added.
pub open spec fn primordial_ids(g: Seq<RuleView>) -> Seq<Seq<char>> {
    primordial_upto(g, g.len() as int)
}

/// Whether the rule `c` can be scheduled when the writer of its input `o`
/// has just been planned: each of its other inputs is written by no rule or
/// by a planned rule.
pub open spec fn ready(g: Seq<RuleView>, c: RuleView, o: Seq<char>, plan: Seq<Seq<char>>) -> bool {
    forall|t: Seq<char>|
        #[trigger] c.ins.contains(t) && t != o ==> match creator_of(g, t) {
            None => true,
            Some(w) => plan.contains(w),
        }
}

/// The queue `q` followed by the readers, among `cons`, of the tag `o` that
/// become ready and are neither planned nor queued yet, in turn.
pub open spec fn enqueue_by(g: Seq<RuleView>, o: Seq<char>, cons: Seq<Seq<char>>, plan: Seq<Seq<char>>, q: Seq<Seq<char>>) -> Seq<Seq<char>>
    decreases cons.len(),
{
    if cons.len() == 0 {
        q
    } else {
        let q1 = enqueue_by(g, o, cons.drop_last(), plan, q);
        let x = cons.last();
        if ready(g, rule_named(g, x), o, plan) && !plan.contains(x) && !q1.contains(x) {
            q1.push(x)
        } else {
            q1
        }
    }
}

/// The queue `q` followed by the rules that become ready through the outputs
/// `outs` of a rule that has just been planned: for each output in turn, its
/// readers in turn, each at most once and none already planned or queued.
pub open spec fn enqueue(g: Seq<RuleView>, outs: Seq<Seq<char>>, plan: Seq<Seq<char>>, q: Seq<Seq<char>>) -> Seq<Seq<char>>
    decreases outs.len(),
{
    if outs.len() == 0 {
        q
    } else {
        enqueue_by(g, outs.last(), consumers_of(g, outs.last()), plan, enqueue(g, outs.drop_last(), plan, q))
    }
}

/// Kahn's algorithm from a plan and a queue: the first rule of the queue is
/// planned and the rules it makes ready join the end of the queue, until the
/// queue is empty (or, which cannot happen, more rules are planned than the
/// graph holds).
pub open spec fn kahn(g: Seq<RuleView>, plan: Seq<Seq<char>>, queue: Seq<Seq<char>>) -> Seq<Seq<char>>
    decreases g.len() + 1 - plan.len(),
{
    if queue.len() == 0 || plan.len() > g.len() {
        plan
    } else {
        let plan2 = plan.push(queue[0]);
        kahn(g, plan2, enqueue(g, rule_named(g, queue[0]).outs, plan2, queue.drop_first()))
    }
}

/// The plan that Kahn's algorithm makes from the queue `seeds`.
pub open spec fn kahn_plan(g: Seq<RuleView>, seeds: Seq<Seq<char>>) -> Seq<Seq<char>> {
    kahn(g, Seq::empty(), seeds)
}

/// `res` is the plan `p` when `p` holds as many rules as the graph, and a
/// cycle error otherwise.
pub open spec fn outcome(res: Result<Plan, PlanningError>, p: Seq<Seq<char>>, n: nat) -> bool {
    match res {
        Ok(plan) => p.len() == n && texts(plan.rules@) == p,
        Err(e) => p.len() != n && e is Cycle,
    }
}

/// The checksums of `prim` for which `keep` holds, in order.
pub open spec fn kept(prim: Seq<Seq<char>>, keep: Seq<bool>) -> Seq<Seq<char>>
    decreases prim.len(),
{
    if prim.len() == 0 || keep.len() == 0 {
        Seq::empty()
    } else if keep.last() {
        kept(prim.drop_last(), keep.drop_last()).push(prim.last())
    } else {
        kept(prim.drop_last(), keep.drop_last())
    }
}

pub(crate) proof fn lemma_named(g: Seq<RuleView>, i: int)
    requires
        well_formed_rules(g),
        0 <= i < g.len(),
    ensures
        rule_ids(g).contains(g[i].id),
        rule_ids(g).index_of(g[i].id) == i,
        rule_named(g, g[i].id) == g[i],
{
    let ids = rule_ids(g);
    assert(ids[i] == g[i].id);
    let k = ids.index_of(g[i].id);
    if k != i {
        assert(ids[k] == g[k].id);
    }
}

pub(crate) proof fn lemma_consumers_are_rules(g: Seq<RuleView>, t: Seq<char>, x: Seq<char>)
    requires
        consumers_of(g, t).contains(x),
    ensures
        exists|i: int| 0 <= i < g.len() && g[i].id == x && #[trigger] g[i].ins.contains(t),
    decreases g.len(),
{
    if g.len() > 0 {
        let rest = consumers_of(g.drop_last(), t);
        let tail = repeat(g.last().id, g.last().ins.to_multiset().count(t));
        let k = consumers_of(g, t).index_of(x);
        if k < rest.len() {
            assert(rest[k] == x);
            lemma_consumers_are_rules(g.drop_last(), t, x);
            let i = choose|i: int| 0 <= i < g.drop_last().len() && g.drop_last()[i].id == x && #[trigger] g.drop_last()[i].ins.contains(t);
            assert(g[i] == g.drop_last()[i]);
        } else {
            assert(tail[k - rest.len()] == x);
            assert(g.last().ins.to_multiset().count(t) > 0);
            assert(g[g.len() - 1].ins.contains(t));
        }
    }
}

/// Whether `s` is among the strings of `v`.
fn contains_text(v: &Vec<String>, s: &str) -> (res: bool)
    ensures
        res == texts(v@).contains(s@),
{
    let mut i: usize = 0;
    while i < v.len()
        invariant
            i <= v@.len(),
            forall|j: int| 0 <= j < i ==> v@[j]@ != s@,
        decreases v@.len() - i,
    {
        if same_text(v[i].as_str(), s) {
            assert(texts(v@)[i as int] == s@);
            return true;
        }
        i = i + 1;
    }
    proof {
        if texts(v@).contains(s@) {
            let j = texts(v@).index_of(s@);
            assert(v@[j]@ == s@);
        }
    }
    false
}

/// Whether the rule at `c` is ready once the writer of `o` is planned.
fn ready_exec(graph: &Graph, c: usize, o: &ArtifactTag, plan: &Vec<String>) -> (res: bool)
    requires
        graph.wf(),
        c < graph.model().len(),
    ensures
        res == ready(graph.model(), graph.model()[c as int], o.0@, texts(plan@)),
{
    let ghost g = graph.model();
    let ghost cv = g[c as int];
    let inputs = &graph.rules[c].input_tags;
    let mut j: usize = 0;
    while j < inputs.len()
        invariant
            graph.wf(),
            g == graph.model(),
            cv == g[c as int],
            c < g.len(),
            cv.ins == tag_texts(inputs@),
            j <= inputs@.len(),
            forall|m: int| 0 <= m < j ==> {
                let t = #[trigger] cv.ins[m];
                t != o.0@ ==> match creator_of(g, t) {
                    None => true,
                    Some(w) => texts(plan@).contains(w),
                }
            },
        decreases inputs@.len() - j,
    {
        let t = &inputs[j];
        if !same_text(t.0.as_str(), o.0.as_str()) {
            proof { assert(g[c as int].ins.contains(cv.ins[j as int])); assert(graph.has_artifact(cv.ins[j as int])); }
            let a = match find_artifact(&graph.artifacts, t.0.as_str()) {
                Some(a) => a,
                None => {
                    proof { assert(false); }
                    return false;
                }
            };
            proof { assert(crate::graph::artifact_matches(g, graph.artifacts@[a as int])); }
            match graph.artifacts[a].creator_rule() {
                None => {}
                Some(w) => {
                    if !contains_text(plan, w.as_str()) {
                        proof { assert(cv.ins.contains(cv.ins[j as int])); }
                        return false;
                    }
                }
            }
        }
        j = j + 1;
    }
    proof {
        assert forall|t: Seq<char>| #[trigger] cv.ins.contains(t) && t != o.0@ implies match creator_of(g, t) {
            None => true,
            Some(w) => texts(plan@).contains(w),
        } by {
            let m = cv.ins.index_of(t);
            assert(cv.ins[m] == t);
        }
    }
    true
}

/// Adds to the queue the rules that the planned rule at `r` makes ready and
/// that are neither planned nor queued; `seen` holds the planned rules
/// followed by the queued ones.
fn release(graph: &Graph, r: usize, plan: &Vec<String>, queue: &mut VecDeque<String>, seen: &mut Vec<String>)
    requires
        graph.wf(),
        r < graph.model().len(),
        texts(old(seen)@) == texts(plan@) + texts(old(queue)@),
    ensures
        texts(final(queue)@) == enqueue(graph.model(), graph.model()[r as int].outs, texts(plan@), texts(old(queue)@)),
        texts(final(seen)@) == texts(plan@) + texts(final(queue)@),
        forall|i: int| 0 <= i < final(queue)@.len() ==> #[trigger] rule_ids(graph.model()).contains(texts(final(queue)@)[i])
            || i < old(queue)@.len(),
{
    let ghost g = graph.model();
    let ghost p = texts(plan@);
    let ghost q0 = texts(queue@);
    let ghost outs = g[r as int].outs;
    let outputs = &graph.rules[r].output_tags;
    let mut k: usize = 0;
    assert(outs.subrange(0, 0) =~= Seq::<Seq<char>>::empty());
    while k < outputs.len()
        invariant
            graph.wf(),
            g == graph.model(),
            p == texts(plan@),
            outs == tag_texts(outputs@),
            outs == g[r as int].outs,
            k <= outputs@.len(),
            r < g.len(),
            texts(queue@) == enqueue(g, outs.subrange(0, k as int), p, q0),
            texts(seen@) == p + texts(queue@),
            forall|i: int| 0 <= i < queue@.len() ==> #[trigger] rule_ids(g).contains(texts(queue@)[i]) || i < q0.len(),
        decreases outputs@.len() - k,
    {
        let o = &outputs[k];
        let ghost ov = outs[k as int];
        proof { assert(g[r as int].outs.contains(ov)); assert(graph.has_artifact(ov)); }
        let a = match find_artifact(&graph.artifacts, o.0.as_str()) {
            Some(a) => a,
            None => {
                proof { assert(false); }
                return;
            }
        };
        proof { assert(crate::graph::artifact_matches(g, graph.artifacts@[a as int])); }
        let cons = graph.artifacts[a].consumer_rules();
        let ghost cs = texts(cons@);
        let ghost q1 = texts(queue@);
        assert(cs.subrange(0, 0) =~= Seq::<Seq<char>>::empty());
        let mut m: usize = 0;
        while m < cons.len()
            invariant
                graph.wf(),
                g == graph.model(),
                p == texts(plan@),
                cs == texts(cons@),
                cs == consumers_of(g, ov),
                ov == o.0@,
                m <= cons@.len(),
                texts(queue@) == enqueue_by(g, ov, cs.subrange(0, m as int), p, q1),
                texts(seen@) == p + texts(queue@),
                forall|i: int| 0 <= i < queue@.len() ==> #[trigger] rule_ids(g).contains(texts(queue@)[i]) || i < q0.len(),
                q1.len() <= queue@.len(),
                forall|i: int| 0 <= i < q1.len() ==> #[trigger] rule_ids(g).contains(q1[i]) || i < q0.len(),
            decreases cons@.len() - m,
        {
            let ghost x = cs[m as int];
            proof {
                assert(consumers_of(g, ov).contains(x));
                lemma_consumers_are_rules(g, ov, x);
                let i = choose|i: int| 0 <= i < g.len() && g[i].id == x && #[trigger] g[i].ins.contains(ov);
                lemma_named(g, i);
            }
            let c = match graph.find_rule(cons[m].as_str()) {
                Some(c) => c,
                None => {
                    proof { assert(false); }
                    return;
                }
            };
            proof {
                lemma_named(g, c as int);
                assert(cs.subrange(0, m + 1).drop_last() =~= cs.subrange(0, m as int));
                assert(cs.subrange(0, m + 1).last() == x);
            }
            let ghost before = texts(queue@);
            let ghost before_seen = texts(seen@);
            let fresh = !contains_text(seen, cons[m].as_str());
            proof {
                assert(before_seen.contains(x) <==> (p.contains(x) || before.contains(x))) by {
                    if before_seen.contains(x) {
                        let j = before_seen.index_of(x);
                        if j < p.len() { assert(p[j] == x); } else { assert(before[j - p.len()] == x); }
                    }
                    if p.contains(x) {
                        let j = p.index_of(x);
                        assert(before_seen[j] == x);
                    }
                    if before.contains(x) {
                        let j = before.index_of(x);
                        assert(before_seen[p.len() + j] == x);
                    }
                }
            }
            if fresh && ready_exec(graph, c, o, plan) {
                let y = cons[m].clone();
                queue.push_back(y.clone());
                seen.push(y);
                proof {
                    assert(texts(queue@) =~= before.push(x));
                    assert(texts(seen@) =~= before_seen.push(x));
                    assert(texts(seen@) =~= p + texts(queue@));
                }
            }
            m = m + 1;
        }
        proof {
            assert(cs.subrange(0, m as int) =~= cs);
            assert(outs.subrange(0, k + 1).drop_last() =~= outs.subrange(0, k as int));
            assert(outs.subrange(0, k + 1).last() == ov);
        }
        k = k + 1;
    }
    proof { assert(outs.subrange(0, k as int) =~= outs); }
}

/// Whether the rule at `i` is primordial.
fn primordial_exec(graph: &Graph, i: usize) -> (res: bool)
    requires
        graph.wf(),
        i < graph.model().len(),
    ensures
        res == is_primordial(graph.model(), graph.model()[i as int]),
{
    let ghost g = graph.model();
    let ghost rv = g[i as int];
    let inputs = &graph.rules[i].input_tags;
    let mut j: usize = 0;
    while j < inputs.len()
        invariant
            graph.wf(),
            g == graph.model(),
            i < g.len(),
            rv == g[i as int],
            rv.ins == tag_texts(inputs@),
            j <= inputs@.len(),
            forall|m: int| 0 <= m < j ==> creator_of(g, #[trigger] rv.ins[m]) is None,
        decreases inputs@.len() - j,
    {
        proof { assert(g[i as int].ins.contains(rv.ins[j as int])); }
        let a = match find_artifact(&graph.artifacts, inputs[j].0.as_str()) {
            Some(a) => a,
            None => {
                proof { assert(false); }
                return false;
            }
        };
        proof { assert(crate::graph::artifact_matches(g, graph.artifacts@[a as int])); }
        if graph.artifacts[a].creator_rule().is_some() {
            proof { assert(rv.ins.contains(rv.ins[j as int])); }
            return false;
        }
        j = j + 1;
    }
    proof {
        assert forall|t: Seq<char>| #[trigger] rv.ins.contains(t) implies creator_of(g, t) is None by {
            let m = rv.ins.index_of(t);
            assert(rv.ins[m] == t);
        }
    }
    true
}

/// The positions of the primordial rules: those none of whose inputs is
/// written by a rule of the graph. Their sources decide what a terse plan
/// leaves out.
pub fn primordial_rules(graph: &Graph) -> (res: Vec<usize>)
    requires
        graph.wf(),
    ensures
        res@.len() == primordial_ids(graph.model()).len(),
        forall|k: int| 0 <= k < res@.len() ==> #[trigger] res@[k] < graph.model().len()
            && graph.model()[res@[k] as int].id == primordial_ids(graph.model())[k],
{
    let ghost g = graph.model();
    let mut res: Vec<usize> = Vec::new();
    let mut i: usize = 0;
    while i < graph.rules.len()
        invariant
            graph.wf(),
            g == graph.model(),
            i <= g.len(),
            res@.len() == primordial_upto(g, i as int).len(),
            forall|k: int| 0 <= k < res@.len() ==> #[trigger] res@[k] < g.len()
                && g[res@[k] as int].id == primordial_upto(g, i as int)[k],
        decreases g.len() - i,
    {
        if primordial_exec(graph, i) {
            res.push(i);
        }
        i = i + 1;
    }
    res
}

/// Which primordial rules start the plan, from the ledger's answers in the
/// order of `primordial_rules`: all of them when `full`, else those the
/// ledger has not seen with their sources.
pub open spec fn keep_for(full: bool, answers: Seq<bool>) -> Seq<bool> {
    Seq::new(answers.len(), |k: int| full || !answers[k])
}

/// `res` is a cycle error when planning from every primordial rule leaves
/// some rule out, and otherwise the plan that Kahn's algorithm makes from
/// `seeds`.
pub open spec fn resolved(res: Result<Plan, PlanningError>, g: Seq<RuleView>, seeds: Seq<Seq<char>>) -> bool {
    if kahn_plan(g, primordial_ids(g)).len() == g.len() {
        res matches Ok(plan) && texts(plan.rules@) == kahn_plan(g, seeds)
    } else {
        res matches Err(e) && e is Cycle
    }
}

/// A way to order the rules of a graph into a plan.
pub trait Resolver {
    /// Orders the rules of `graph`; `sources` are the source checksums of
    /// its primordial rules, in the order of `primordial_rules`.
    fn resolve<L: PrimordialLedger>(
        &self,
        mode: ResolveMode,
        graph: &Graph,
        ledger: &mut L,
        sources: &Vec<String>,
    ) -> Result<Plan, PlanningError>
        requires
            graph.wf(),
            sources@.len() == primordial_ids(graph.model()).len(),
    ;
}

/// The resolver that orders the rules by Kahn's algorithm.
pub struct TopologicalResolver {}

impl Resolver for TopologicalResolver {
    /// Asks the ledger, for each primordial rule in the order they were
    /// added, whether it was in the last run with its sources, and plans as
    /// `resolve_answers` does with those answers.
    fn resolve<L: PrimordialLedger>(
        &self,
        mode: ResolveMode,
        graph: &Graph,
        ledger: &mut L,
        sources: &Vec<String>,
    ) -> (res: Result<Plan, PlanningError>)
        ensures
            *final(ledger) == *old(ledger),
            exists|answers: Seq<bool>| {
                &&& answers.len() == primordial_ids(graph.model()).len()
                &&& forall|k: int| 0 <= k < answers.len()
                    ==> old(ledger).answers(primordial_ids(graph.model())[k], sources@[k]@, #[trigger] answers[k])
                &&& resolved(res, graph.model(), kept(primordial_ids(graph.model()), #[trigger] keep_for(mode is Full, answers)))
            },
    {
        let ghost g = graph.model();
        let ghost prim = primordial_ids(g);
        let positions = primordial_rules(graph);
        let mut answers: Vec<bool> = Vec::new();
        let mut k: usize = 0;
        while k < positions.len()
            invariant
                graph.wf(),
                g == graph.model(),
                prim == primordial_ids(g),
                positions@.len() == prim.len(),
                sources@.len() == prim.len(),
                forall|j: int| 0 <= j < positions@.len() ==> #[trigger] positions@[j] < g.len()
                    && g[positions@[j] as int].id == prim[j],
                k <= positions@.len(),
                answers@.len() == k,
                *ledger == *old(ledger),
                forall|j: int| 0 <= j < k ==> old(ledger).answers(prim[j], sources@[j]@, #[trigger] answers@[j]),
            decreases positions@.len() - k,
        {
            let p = positions[k];
            proof { lemma_named(g, p as int); }
            let seen = ledger.was_rule_in_last_run(graph.rules[p].checksum.as_str(), sources[k].as_str());
            answers.push(seen);
            k = k + 1;
        }
        let res = self.resolve_answers(mode, graph, &answers);
        proof {
            assert(answers@.len() == prim.len());
            assert(forall|j: int| 0 <= j < answers@.len() ==> old(ledger).answers(prim[j], sources@[j]@, #[trigger] answers@[j]));
            assert(resolved(res, g, kept(prim, keep_for(mode is Full, answers@))));
        }
        res
    }
}

impl TopologicalResolver {
    /// Plans the rules of `graph` from the ledger's answers for its primordial
    /// rules, in the order of `primordial_rules` (`true`: seen in the last run
    /// with the same sources). Fails with a cycle error when planning from
    /// every primordial rule leaves some rule out. Otherwise plans by Kahn's
    /// algorithm from the primordial rules, in `Full` mode all of them, in
    /// `Terse` mode those not seen; a terse plan leaves out the seen rules and
    /// every rule that depends on one of them.
    pub fn resolve_answers(&self, mode: ResolveMode, graph: &Graph, answers: &Vec<bool>) -> (res: Result<Plan, PlanningError>)
        requires
            graph.wf(),
            answers@.len() == primordial_ids(graph.model()).len(),
        ensures
            resolved(res, graph.model(), kept(primordial_ids(graph.model()), keep_for(mode is Full, answers@))),
    {
        let ghost g = graph.model();
        let ghost prim = primordial_ids(g);
        let ghost keep = keep_for(mode is Full, answers@);
        let full = match mode {
            ResolveMode::Full => true,
            ResolveMode::Terse => false,
        };
        let positions = primordial_rules(graph);
        let mut all: Vec<String> = Vec::new();
        let mut seeds: Vec<String> = Vec::new();
        let mut k: usize = 0;
        assert(prim.subrange(0, 0) =~= Seq::<Seq<char>>::empty());
        assert(keep.subrange(0, 0) =~= Seq::<bool>::empty());
        while k < positions.len()
            invariant
                graph.wf(),
                g == graph.model(),
                prim == primordial_ids(g),
                keep == keep_for(full, answers@),
                positions@.len() == prim.len(),
                answers@.len() == prim.len(),
                forall|j: int| 0 <= j < positions@.len() ==> #[trigger] positions@[j] < g.len()
                    && g[positions@[j] as int].id == prim[j],
                k <= positions@.len(),
                texts(all@) == prim.subrange(0, k as int),
                texts(seeds@) == kept(prim.subrange(0, k as int), keep.subrange(0, k as int)),
                forall|j: int| 0 <= j < all@.len() ==> #[trigger] rule_ids(g).contains(all@[j]@),
                forall|j: int| 0 <= j < seeds@.len() ==> #[trigger] rule_ids(g).contains(seeds@[j]@),
            decreases positions@.len() - k,
        {
            let p = positions[k];
            let id = graph.rules[p].checksum.clone();
            let take = full || !answers[k];
            let ghost before = seeds@;
            let ghost before_all = all@;
            proof {
                lemma_named(g, p as int);
                assert(prim.subrange(0, k + 1).drop_last() =~= prim.subrange(0, k as int));
                assert(keep.subrange(0, k + 1).drop_last() =~= keep.subrange(0, k as int));
                assert(keep.subrange(0, k + 1).last() == take);
            }
            all.push(id.clone());
            proof {
                assert(texts(all@) =~= texts(before_all).push(prim[k as int]));
                assert(prim.subrange(0, k + 1) =~= prim.subrange(0, k as int).push(prim[k as int]));
            }
            if take {
                seeds.push(id);
                proof {
                    assert(texts(seeds@) =~= texts(before).push(prim[k as int]));
                }
            }
            k = k + 1;
        }
        proof {
            assert(prim.subrange(0, k as int) =~= prim);
            assert(keep.subrange(0, k as int) =~= keep);
        }
        let everything = self.plan_from(graph, all);
        if everything.rules.len() != graph.rules.len() {
            return Err(PlanningError::Cycle);
        }
        if full {
            proof {
                crate::schedule::lemma_kept(prim, keep);
            }
            Ok(everything)
        } else {
            Ok(self.plan_from(graph, seeds))
        }
    }

    /// The plan that Kahn's algorithm makes from the rules of `seeds`, in
    /// order: the first rule of the queue is planned and each rule that it
    /// makes ready, unless planned or queued already, joins the end of the
    /// queue; a rule is ready when every input besides the one just written
    /// is written by no rule or by a planned rule.
    pub fn plan_from(&self, graph: &Graph, seeds: Vec<String>) -> (res: Plan)
        requires
            graph.wf(),
            forall|i: int| 0 <= i < seeds@.len() ==> #[trigger] rule_ids(graph.model()).contains(seeds@[i]@),
        ensures
            texts(res.rules@) == kahn_plan(graph.model(), texts(seeds@)),
    {
        let ghost g = graph.model();
        let n = graph.rules.len();
        let mut queue: VecDeque<String> = VecDeque::new();
        let mut seen: Vec<String> = Vec::new();
        let mut i: usize = 0;
        while i < seeds.len()
            invariant
                i <= seeds@.len(),
                texts(queue@) == texts(seeds@).subrange(0, i as int),
                texts(seen@) == texts(queue@),
            decreases seeds@.len() - i,
        {
            let ghost before = queue@;
            let ghost before_seen = seen@;
            let x = seeds[i].clone();
            queue.push_back(x.clone());
            seen.push(x);
            assert(queue@ == before.push(x));
            assert(texts(before).len() == i);
            assert(before.len() == i);
            assert(x@ == seeds@[i as int]@);
            assert forall|j: int| 0 <= j < i + 1 implies #[trigger] texts(queue@)[j] == texts(seeds@).subrange(0, i + 1)[j] by {
                if j < i {
                    assert(texts(before)[j] == texts(seeds@).subrange(0, i as int)[j]);
                }
            }
            assert(texts(queue@) =~= texts(seeds@).subrange(0, i + 1));
            assert(texts(seen@) =~= texts(before_seen).push(x@));
            assert(texts(queue@) =~= texts(before).push(x@));
            i = i + 1;
        }
        assert(texts(seeds@).subrange(0, i as int) =~= texts(seeds@));
        let mut plan = Plan::new();
        let ghost goal = kahn_plan(g, texts(seeds@));
        assert(texts(plan.rules@) =~= Seq::<Seq<char>>::empty());
        assert(texts(seen@) =~= texts(plan.rules@) + texts(queue@));
        while queue.len() > 0 && plan.rules.len() <= n
            invariant
                graph.wf(),
                g == graph.model(),
                n == g.len(),
                kahn(g, texts(plan.rules@), texts(queue@)) == goal,
                texts(seen@) == texts(plan.rules@) + texts(queue@),
                forall|i: int| 0 <= i < queue@.len() ==> #[trigger] rule_ids(g).contains(texts(queue@)[i]),
            decreases n + 1 - plan.rules@.len(),
        {
            let ghost p0 = texts(plan.rules@);
            let ghost q0 = texts(queue@);
            let rule_id = match queue.pop_front() {
                Some(x) => x,
                None => {
                    proof { assert(false); }
                    return plan;
                }
            };
            proof { assert(rule_ids(g).contains(q0[0])); }
            plan.rules.push(rule_id.clone());
            let r = match graph.find_rule(rule_id.as_str()) {
                Some(r) => r,
                None => {
                    proof { assert(false); }
                    return plan;
                }
            };
            proof {
                lemma_named(g, r as int);
                assert(texts(plan.rules@) =~= p0.push(q0[0]));
                assert(texts(queue@) =~= q0.drop_first());
                assert(texts(seen@) =~= texts(plan.rules@) + texts(queue@));
            }
            let ghost q1 = texts(queue@);
            release(graph, r, &plan.rules, &mut queue, &mut seen);
            proof {
                crate::schedule::lemma_enqueue(g, g[r as int].outs, texts(plan.rules@), q1);
                assert forall|i: int| 0 <= i < queue@.len() implies #[trigger] rule_ids(g).contains(texts(queue@)[i]) by {
                    if i < q1.len() {
                        assert(texts(queue@).subrange(0, q1.len() as int)[i] == q1[i]);
                        assert(texts(queue@)[i] == q0[i + 1]);
                    }
                }
            }
        }
        plan
    }

    /// The plan that Kahn's algorithm makes from the rules of `seeds` (see
    /// `plan_from`). Fails with a cycle error unless the plan holds as many
    /// rules as the graph.
    pub fn order_from(&self, graph: &Graph, seeds: Vec<String>) -> (res: Result<Plan, PlanningError>)
        requires
            graph.wf(),
            forall|i: int| 0 <= i < seeds@.len() ==> #[trigger] rule_ids(graph.model()).contains(seeds@[i]@),
        ensures
            outcome(res, kahn_plan(graph.model(), texts(seeds@)), graph.model().len()),
    {
        let plan = self.plan_from(graph, seeds);
        if plan.rules.len() == graph.rules.len() {
            Ok(plan)
        } else {
            Err(PlanningError::Cycle)
        }
    }
}

} // verus!
