use doze::doze::{Graph, Plan, PlanningError, Procedure, ProcedureError, Registry, ResolveMode, Resolver, Rule, TopologicalResolver};

struct NoOp;

impl Procedure for NoOp {
    fn exec(&mut self, _rule: &mut Rule) -> Result<(), ProcedureError> {
        Ok(())
    }
}

type Factory = fn() -> Box<dyn Procedure>;

fn noop() -> Box<dyn Procedure> {
    Box::new(NoOp)
}

#[test]
fn sketch_registry_creates_registered_procedures() {
    let mut reg: Registry<Factory> = Registry::new();
    assert!(matches!(reg.create("noop"), Err(ProcedureError::NotFound(id)) if id == "noop"));
    reg.register("noop".to_string(), noop as Factory);
    assert!(reg.create("noop").is_ok());
}

#[test]
fn sketch_resolver_plans_empty_graph() {
    let graph = Graph::new();
    let plan = TopologicalResolver {}.resolve(&graph, ResolveMode::Full).unwrap();
    assert!(plan.rules.is_empty());
    assert!(Plan::new().rules.is_empty());
}

#[test]
fn sketch_messages() {
    assert_eq!(PlanningError::NotImplemented.to_string(), "not implemented yet!");
    assert_eq!(ProcedureError::NotFound("x".to_string()).to_string(), "procedure not found: x");
    assert_eq!(ProcedureError::ExecFailed("y".to_string()).to_string(), "execution failed: y");
}
