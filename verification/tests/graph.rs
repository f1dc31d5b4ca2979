use doze::{
    source_checksum, AddRuleError, ArtifactTag, Graph, Procedure, ProcedureError, ProcedureId, Registry, Rule,
};

struct NoOp;

impl Procedure for NoOp {
    fn exec(&mut self, _rule: &mut Rule) -> Result<(), ProcedureError> {
        Ok(())
    }
}

type Factory = fn() -> Box<dyn Procedure>;

fn noop() -> Box<dyn Procedure> {
    Box::new(NoOp)
}

fn registry() -> Registry<Factory> {
    let mut reg: Registry<Factory> = Registry::new();
    reg.register("noop".to_string(), noop as Factory);
    reg
}

fn strings(items: &[&str]) -> Vec<String> {
    items.iter().map(|s| s.to_string()).collect()
}

fn add(graph: &mut Graph, ins: &[&str], outs: &[&str], dir: &str, proc: &str, reg: &Registry<Factory>) -> Result<String, AddRuleError> {
    graph.add_rule(strings(ins), strings(outs), dir.to_string(), dir.to_string(), ProcedureId(proc.to_string()), reg)
}

#[test]
fn add_rule_refuses_empty_inputs() {
    let reg = registry();
    let mut g = Graph::new();
    assert!(matches!(add(&mut g, &[], &["out"], "", "noop", &reg), Err(AddRuleError::NoInputs)));
    assert_eq!(g.rule_count(), 0);
}

#[test]
fn add_rule_refuses_empty_outputs() {
    let reg = registry();
    let mut g = Graph::new();
    assert!(matches!(add(&mut g, &["in"], &[], "", "noop", &reg), Err(AddRuleError::NoOutputs)));
    assert_eq!(g.rule_count(), 0);
}

#[test]
fn add_rule_refuses_unknown_procedure() {
    let reg = registry();
    let mut g = Graph::new();
    match add(&mut g, &["in"], &["out"], "", "other", &reg) {
        Err(AddRuleError::ProcedureNotFound(id)) => assert_eq!(id, "other"),
        _ => panic!("expected ProcedureNotFound"),
    }
}

#[test]
fn add_rule_refuses_second_writer() {
    let reg = registry();
    let mut g = Graph::new();
    add(&mut g, &["a"], &["x"], "/d", "noop", &reg).unwrap();
    match add(&mut g, &["b"], &["y", "x"], "/d", "noop", &reg) {
        Err(AddRuleError::DuplicateOutput(tag)) => assert_eq!(tag.0, "/d/x"),
        _ => panic!("expected DuplicateOutput"),
    }
    // The same rule once more is refused by its outputs.
    assert!(matches!(add(&mut g, &["a"], &["x"], "/d", "noop", &reg), Err(AddRuleError::DuplicateOutput(_))));
    assert_eq!(g.rule_count(), 1);
}

#[test]
fn add_rule_checksum_value() {
    let reg = registry();
    let mut g = Graph::new();
    let id = add(&mut g, &["in"], &["out"], "", "noop", &reg).unwrap();
    // MD5 of "in", "out" and "noop", one after another.
    assert_eq!(id, "c03136350d2b3e0129015239c6984db8");
    assert_eq!(id.len(), 32);
    assert_eq!(g.rule_count(), 1);
}

#[test]
fn add_rule_checksum_ignores_order() {
    let reg = registry();
    let mut g1 = Graph::new();
    let mut g2 = Graph::new();
    let id1 = add(&mut g1, &["b", "a"], &["x"], "", "noop", &reg).unwrap();
    let id2 = add(&mut g2, &["a", "b"], &["x"], "", "noop", &reg).unwrap();
    assert_eq!(id1, id2);
    assert_eq!(id1, "01cf0ccf1ac4e5588bfa7b1549b4806d");
}

#[test]
fn rules_whose_tags_split_differently_are_distinct() {
    let reg = registry();
    let mut g = Graph::new();
    let id1 = add(&mut g, &["ab"], &["c"], "", "noop", &reg).unwrap();
    let id2 = add(&mut g, &["a"], &["bc"], "", "noop", &reg).unwrap();
    // The first keeps the MD5 of "abcnoop"; the second, whose bare data is
    // the same, is named by the framed form "1:1:a" "1:2:bc" "noop".
    assert_eq!(id1, "c60df72b188c901f303472db43725733");
    assert_eq!(id2, "3878964595efc27feedaaac2648d2b74");
    assert_eq!(g.rule_count(), 2);
}

#[test]
fn add_rule_checksum_of_joined_tags() {
    let reg = registry();
    let mut g = Graph::new();
    let id = g
        .add_rule(strings(&["x"]), strings(&["y"]), "src".to_string(), "build".to_string(), ProcedureId("noop".to_string()), &reg)
        .unwrap();
    assert_eq!(id, "f9aab21bdfc76bbdfd840198e163dc11");
    assert_eq!(g.rule_at(0).checksum_text(), id);
}

#[test]
fn add_rule_sorts_and_joins_tags() {
    let reg = registry();
    let mut g = Graph::new();
    add(&mut g, &["b", "a"], &["z", "y"], "/in", "noop", &reg).unwrap();
    let rule = g.rule_at(0);
    let ins: Vec<&str> = rule.input_tags().iter().map(|t| t.0.as_str()).collect();
    let outs: Vec<&str> = rule.output_tags().iter().map(|t| t.0.as_str()).collect();
    assert_eq!(ins, vec!["/in/a", "/in/b"]);
    assert_eq!(outs, vec!["/in/y", "/in/z"]);
}

#[test]
fn absolute_tag_replaces_directory() {
    let reg = registry();
    let mut g = Graph::new();
    add(&mut g, &["/abs/in"], &["out"], "/dir", "noop", &reg).unwrap();
    assert_eq!(g.rule_at(0).input_tags()[0], ArtifactTag("/abs/in".to_string()));
}

#[test]
fn add_rule_error_messages() {
    assert_eq!(
        AddRuleError::DuplicateOutput(ArtifactTag("x".to_string())).to_string(),
        "artifact (x) was registered twice as an output"
    );
    assert_eq!(
        AddRuleError::DuplicateRule("abc".to_string()).to_string(),
        "rule [abc] already exists with the same data"
    );
    assert_eq!(AddRuleError::NoInputs.to_string(), "no inputs provided");
    assert_eq!(AddRuleError::NoOutputs.to_string(), "no outputs provided");
    assert_eq!(AddRuleError::ProcedureNotFound("p".to_string()).to_string(), "procedure not found: p");
}

#[test]
fn source_checksum_values() {
    assert_eq!(source_checksum(&vec![b"hello".to_vec()]), "5d41402abc4b2a76b9719d911017c592");
    assert_eq!(source_checksum(&vec![b"hel".to_vec(), b"lo".to_vec()]), "5d41402abc4b2a76b9719d911017c592");
    assert_eq!(source_checksum(&vec![]), "d41d8cd98f00b204e9800998ecf8427e");
}

#[test]
fn registry_register_contains_create() {
    let mut reg: Registry<Factory> = Registry::new();
    assert!(!reg.contains("noop"));
    assert!(matches!(reg.create("noop"), Err(ProcedureError::NotFound(id)) if id == "noop"));
    reg.register("noop".to_string(), noop as Factory);
    assert!(reg.contains("noop"));
    assert!(reg.create("noop").is_ok());
    reg.register("noop".to_string(), noop as Factory);
    assert!(reg.contains("noop"));
}

#[test]
fn procedure_error_messages() {
    assert_eq!(ProcedureError::NotFound("x".to_string()).to_string(), "procedure not found: x");
    assert_eq!(ProcedureError::ExecFailed("boom".to_string()).to_string(), "execution failed: boom");
}

#[test]
fn registry_of_boxed_closures() {
    let mut reg: Registry<Box<dyn Fn() -> Box<dyn Procedure>>> = Registry::new();
    reg.register("a".to_string(), Box::new(|| Box::new(NoOp) as Box<dyn Procedure>));
    let mut g = Graph::new();
    let id = g
        .add_rule(strings(&["in"]), strings(&["out"]), String::new(), String::new(), ProcedureId("a".to_string()), &reg)
        .unwrap();
    assert_eq!(id.len(), 32);
    assert!(reg.create("a").is_ok());
}
