use doze::{
    primordial_rules, source_checksum, CacheError, Graph, Plan, PlanningError, PrimordialLedger, Procedure,
    ProcedureError, ProcedureId, Registry, ResolveMode, Resolver, Rule, TopologicalResolver,
};

const DIR: &str = "/work/doze";

struct NullLedger;

impl PrimordialLedger for NullLedger {
    fn was_rule_in_last_run(&self, _rule_checksum: &str, _source_checksum: &str) -> bool {
        false
    }

    fn record_rule(&mut self, _rule_checksum: &str, _source_checksum: &str) {}

    fn flush(&mut self) -> Result<(), CacheError> {
        Ok(())
    }
}

struct SeenLedger;

impl PrimordialLedger for SeenLedger {
    fn was_rule_in_last_run(&self, _rule_checksum: &str, _source_checksum: &str) -> bool {
        true
    }

    fn record_rule(&mut self, _rule_checksum: &str, _source_checksum: &str) {}

    fn flush(&mut self) -> Result<(), CacheError> {
        Ok(())
    }
}

struct NoOp;

impl Procedure for NoOp {
    fn exec(&mut self, _rule: &mut Rule) -> Result<(), ProcedureError> {
        Ok(())
    }
}

type Factory = fn() -> Box<dyn Procedure>;

fn noop() -> Box<dyn Procedure> {
    Box::new(NoOp)
}

fn registry() -> Registry<Factory> {
    let mut reg: Registry<Factory> = Registry::new();
    reg.register("noop".to_string(), noop as Factory);
    reg
}

fn add(graph: &mut Graph, input_tags: &[&str], output_tags: &[&str], registry: &Registry<Factory>) -> String {
    graph
        .add_rule(
            input_tags.iter().map(|s| s.to_string()).collect(),
            output_tags.iter().map(|s| s.to_string()).collect(),
            DIR.to_string(),
            DIR.to_string(),
            ProcedureId("noop".to_string()),
            registry,
        )
        .expect("add_rule should succeed")
}

// Each input holds the same placeholder text.
fn sources(graph: &Graph) -> Vec<String> {
    primordial_rules(graph)
        .iter()
        .map(|&i| {
            let contents: Vec<Vec<u8>> = graph.rule_at(i).input_tags().iter().map(|_| b"placeholder".to_vec()).collect();
            source_checksum(&contents)
        })
        .collect()
}

fn resolve_full(graph: &Graph) -> Result<Plan, PlanningError> {
    let srcs = sources(graph);
    TopologicalResolver {}.resolve(ResolveMode::Full, graph, &mut NullLedger, &srcs)
}

fn pos(plan: &Plan, checksum: &str) -> usize {
    plan.rules
        .iter()
        .position(|id| id == checksum)
        .unwrap_or_else(|| panic!("rule [{checksum}] missing from plan"))
}

#[test]
fn linear() {
    let mut graph = Graph::new();
    let registry = registry();

    let a = add(&mut graph, &["first"], &["second"], &registry);
    let b = add(&mut graph, &["second"], &["third"], &registry);
    let c = add(&mut graph, &["third"], &["final"], &registry);

    let plan = resolve_full(&graph).unwrap();

    assert_eq!(plan.rules.len(), 3);
    assert!(pos(&plan, &a) < pos(&plan, &b));
    assert!(pos(&plan, &b) < pos(&plan, &c));
}

#[test]
fn diamond() {
    let mut graph = Graph::new();
    let registry = registry();

    let a = add(&mut graph, &["first"], &["second"], &registry);
    let b = add(&mut graph, &["second"], &["third"], &registry);
    let c = add(&mut graph, &["second"], &["fourth"], &registry);
    let d = add(&mut graph, &["third", "fourth"], &["final"], &registry);

    let plan = resolve_full(&graph).unwrap();

    assert_eq!(plan.rules.len(), 4);
    assert!(pos(&plan, &a) < pos(&plan, &b));
    assert!(pos(&plan, &a) < pos(&plan, &c));
    assert!(pos(&plan, &b) < pos(&plan, &d));
    assert!(pos(&plan, &c) < pos(&plan, &d));
}

#[test]
fn disconnected() {
    let mut graph = Graph::new();
    let registry = registry();

    let a1 = add(&mut graph, &["src1"], &["out1"], &registry);
    let a2 = add(&mut graph, &["out1"], &["out2"], &registry);
    let b1 = add(&mut graph, &["src2"], &["out3"], &registry);

    let plan = resolve_full(&graph).unwrap();

    // No ordering assumed between the two chains.
    assert_eq!(plan.rules.len(), 3);
    assert!(pos(&plan, &a1) < pos(&plan, &a2));
    let _ = b1;
}

#[test]
fn multiple_primordial_inputs() {
    let mut graph = Graph::new();
    let registry = registry();

    let r = add(&mut graph, &["first", "second"], &["final"], &registry);

    let plan = resolve_full(&graph).unwrap();

    assert_eq!(plan.rules.len(), 1);
    assert_eq!(plan.rules[0], r);
}

#[test]
fn all_rules_present_exactly_once() {
    let mut graph = Graph::new();
    let registry = registry();

    add(&mut graph, &["first"], &["second"], &registry);
    add(&mut graph, &["second"], &["third"], &registry);
    add(&mut graph, &["second"], &["fourth"], &registry);
    add(&mut graph, &["third", "fourth"], &["final"], &registry);

    let plan = resolve_full(&graph).unwrap();

    let mut seen = std::collections::HashSet::new();
    for id in &plan.rules {
        assert!(seen.insert(id.clone()), "rule {id} scheduled twice");
    }
    assert_eq!(plan.rules.len(), graph.rule_count());
}

#[test]
fn cyclic() {
    let mut graph = Graph::new();
    let registry = registry();

    add(&mut graph, &["first"], &["second"], &registry);
    add(&mut graph, &["second"], &["third"], &registry);
    add(&mut graph, &["third"], &["first"], &registry);

    let result = resolve_full(&graph);

    assert!(matches!(result, Err(PlanningError::Cycle)));
}

#[test]
fn diamond_reversed() {
    let mut graph = Graph::new();
    let registry = registry();

    let d = add(&mut graph, &["third", "fourth"], &["final"], &registry);
    let c = add(&mut graph, &["second"], &["fourth"], &registry);
    let b = add(&mut graph, &["second"], &["third"], &registry);
    let a = add(&mut graph, &["first"], &["second"], &registry);

    let plan = resolve_full(&graph).unwrap();

    assert_eq!(plan.rules.len(), 4);
    assert!(pos(&plan, &a) < pos(&plan, &b));
    assert!(pos(&plan, &a) < pos(&plan, &c));
    assert!(pos(&plan, &b) < pos(&plan, &d));
    assert!(pos(&plan, &c) < pos(&plan, &d));
}

fn permutations(n: usize) -> Vec<Vec<usize>> {
    if n == 0 {
        return vec![vec![]];
    }
    let mut out = Vec::new();
    for p in permutations(n - 1) {
        for k in 0..=p.len() {
            let mut q = p.clone();
            q.insert(k, n - 1);
            out.push(q);
        }
    }
    out
}

// The rules of the diamond are added in every possible order.
#[test]
fn diamond_random() {
    let specs: Vec<(&[&str], &[&str])> = vec![
        (&["first"], &["second"]),
        (&["second"], &["third"]),
        (&["second"], &["fourth"]),
        (&["third", "fourth"], &["final"]),
    ];
    for order in permutations(specs.len()) {
        let mut graph = Graph::new();
        let registry = registry();

        let mut checksums = std::collections::HashMap::new();
        for &k in &order {
            let (inputs, outputs) = specs[k];
            let id = add(&mut graph, inputs, outputs, &registry);
            checksums.insert(outputs[0], id);
        }

        let plan = resolve_full(&graph).unwrap_or_else(|e| panic!("order {order:?} failed: {}", e.to_string()));

        assert!(pos(&plan, &checksums["second"]) < pos(&plan, &checksums["third"]));
        assert!(pos(&plan, &checksums["second"]) < pos(&plan, &checksums["fourth"]));
        assert!(pos(&plan, &checksums["third"]) < pos(&plan, &checksums["final"]));
        assert!(pos(&plan, &checksums["fourth"]) < pos(&plan, &checksums["final"]));
    }
}

#[test]
fn plan_follows_kahn_order() {
    let mut graph = Graph::new();
    let registry = registry();

    let a = add(&mut graph, &["first"], &["second"], &registry);
    let b = add(&mut graph, &["second"], &["third"], &registry);
    let c = add(&mut graph, &["second"], &["fourth"], &registry);
    let d = add(&mut graph, &["third", "fourth"], &["final"], &registry);

    let plan = resolve_full(&graph).unwrap();
    assert_eq!(plan.rules, vec![a, b, c, d]);
}

struct SeenOnly(String);

impl PrimordialLedger for SeenOnly {
    fn was_rule_in_last_run(&self, rule_checksum: &str, _source_checksum: &str) -> bool {
        rule_checksum == self.0
    }

    fn record_rule(&mut self, _rule_checksum: &str, _source_checksum: &str) {}

    fn flush(&mut self) -> Result<(), CacheError> {
        Ok(())
    }
}

#[test]
fn terse_plan_leaves_out_seen_sources() {
    let mut graph = Graph::new();
    let registry = registry();

    let a = add(&mut graph, &["first"], &["second"], &registry);
    let b = add(&mut graph, &["second"], &["third"], &registry);
    let c = add(&mut graph, &["other"], &["more"], &registry);
    let d = add(&mut graph, &["more"], &["last"], &registry);

    let srcs = sources(&graph);
    let result = TopologicalResolver {}.resolve(ResolveMode::Terse, &graph, &mut SeenLedger, &srcs);
    assert!(result.unwrap().rules.is_empty());

    let result = TopologicalResolver {}.resolve(ResolveMode::Terse, &graph, &mut SeenOnly(a.clone()), &srcs);
    assert_eq!(result.unwrap().rules, vec![c.clone(), d.clone()]);

    let result = TopologicalResolver {}.resolve(ResolveMode::Terse, &graph, &mut NullLedger, &srcs);
    assert_eq!(result.unwrap().rules, vec![a.clone(), c.clone(), b.clone(), d.clone()]);

    // Full mode ignores the ledger.
    let result = TopologicalResolver {}.resolve(ResolveMode::Full, &graph, &mut SeenLedger, &srcs);
    assert_eq!(result.unwrap().rules, vec![a, c, b, d]);
}

#[test]
fn terse_plan_of_a_cycle_fails() {
    let mut graph = Graph::new();
    let registry = registry();

    add(&mut graph, &["first"], &["second"], &registry);
    add(&mut graph, &["second", "fourth"], &["third"], &registry);
    add(&mut graph, &["third"], &["fourth"], &registry);

    let srcs = sources(&graph);
    let result = TopologicalResolver {}.resolve(ResolveMode::Terse, &graph, &mut SeenLedger, &srcs);
    assert!(matches!(result, Err(PlanningError::Cycle)));
}

#[test]
fn answers_decide_the_seeds() {
    let mut graph = Graph::new();
    let registry = registry();

    let a = add(&mut graph, &["first"], &["second"], &registry);
    let c = add(&mut graph, &["other"], &["more"], &registry);

    let plan = TopologicalResolver {}.resolve_answers(ResolveMode::Terse, &graph, &vec![false, true]).unwrap();
    assert_eq!(plan.rules, vec![a.clone()]);
    let plan = TopologicalResolver {}.resolve_answers(ResolveMode::Terse, &graph, &vec![true, false]).unwrap();
    assert_eq!(plan.rules, vec![c.clone()]);
    let plan = TopologicalResolver {}.resolve_answers(ResolveMode::Full, &graph, &vec![true, true]).unwrap();
    assert_eq!(plan.rules, vec![a, c]);
}

#[test]
fn order_from_seeds() {
    let mut graph = Graph::new();
    let registry = registry();

    let a = add(&mut graph, &["first"], &["second"], &registry);
    let b = add(&mut graph, &["second"], &["third"], &registry);

    let plan = TopologicalResolver {}.order_from(&graph, vec![a.clone()]).unwrap();
    assert_eq!(plan.rules, vec![a.clone(), b.clone()]);

    // Without the rule that starts the chain, nothing is planned.
    assert!(matches!(TopologicalResolver {}.order_from(&graph, vec![]), Err(PlanningError::Cycle)));
}

#[test]
fn two_outputs_read_by_one_rule() {
    // A rule that reads two outputs of one rule is planned once.
    let mut graph = Graph::new();
    let registry = registry();

    let a = add(&mut graph, &["first"], &["left", "right"], &registry);
    let b = add(&mut graph, &["left", "right"], &["final"], &registry);

    assert_eq!(resolve_full(&graph).unwrap().rules, vec![a, b]);
}

#[test]
fn one_tag_read_twice() {
    let mut graph = Graph::new();
    let registry = registry();

    let a = add(&mut graph, &["first"], &["second"], &registry);
    let b = add(&mut graph, &["second", "second"], &["final"], &registry);

    assert_eq!(resolve_full(&graph).unwrap().rules, vec![a, b]);
}

#[test]
fn planning_error_messages() {
    assert_eq!(PlanningError::Cycle.to_string(), "cycle detected in Graph");
    let e = PlanningError::SourceUnreadable(doze::RuleError::SourceReadFailed("a".to_string(), "gone".to_string()));
    assert_eq!(e.to_string(), "could not compute source checksum: could not open artifact (a) for reading: gone");
}
