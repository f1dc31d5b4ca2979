use doze::{
    execute, tmp_marker_path, ArtifactStore, ArtifactTag, CacheError, ExecuteError, Graph, LocalCache, Plan,
    PrimordialLedger, Procedure, ProcedureError, ProcedureId, Registry, Rule, RuleError, Step,
};

#[test]
fn local_cache_paths() {
    let cache = LocalCache::new("/cache".to_string());
    assert_eq!(cache.outputs_dir("rule1", "srcsum1"), "/cache/rule1/srcsum1");
    assert_eq!(cache.last_run_dir(), "/cache/last_run");
    assert_eq!(LocalCache::key("rule1", "srcsum1"), "rule1_srcsum1");
    assert_eq!(tmp_marker_path("/cache/rule1/srcsum1"), "/cache/rule1/srcsum1=");
}

#[test]
fn local_cache_records_rules() {
    let mut cache = LocalCache::new("/cache".to_string());
    assert!(cache.recorded().is_empty());
    cache.record_rule("r1", "s1");
    cache.record_rule("r2", "s2");
    assert_eq!(cache.recorded(), vec!["r1_s1".to_string(), "r2_s2".to_string()]);
    cache.clear_recorded();
    assert!(cache.recorded().is_empty());
}

#[test]
fn cache_error_messages() {
    assert_eq!(CacheError::Io("disk".to_string()).to_string(), "cache I/O error: disk");
    assert_eq!(CacheError::NotFound("a/b".to_string()).to_string(), "not found in cache: a/b");
}

// A cache in memory: a rule is fresh once its outputs were stored.
#[derive(Default)]
struct MemCache {
    stored: Vec<(String, String)>,
    fetched: usize,
    flushed: usize,
    fail_flush: bool,
}

impl ArtifactStore for MemCache {
    fn is_fresh(&self, rule_checksum: &str, source_checksum: &str) -> Result<bool, CacheError> {
        Ok(self.stored.iter().any(|(r, s)| r == rule_checksum && s == source_checksum))
    }

    fn store_artifacts(&mut self, rule_checksum: &str, source_checksum: &str, _from: &[ArtifactTag]) -> Result<(), CacheError> {
        self.stored.push((rule_checksum.to_string(), source_checksum.to_string()));
        Ok(())
    }

    fn ensure_artifacts(&self, _rule_checksum: &str, _source_checksum: &str, _into: &[ArtifactTag]) -> Result<(), CacheError> {
        Ok(())
    }
}

impl PrimordialLedger for MemCache {
    fn was_rule_in_last_run(&self, _rule_checksum: &str, _source_checksum: &str) -> bool {
        false
    }

    fn record_rule(&mut self, _rule_checksum: &str, _source_checksum: &str) {}

    fn flush(&mut self) -> Result<(), CacheError> {
        self.flushed += 1;
        if self.fail_flush {
            Err(CacheError::Io("full".to_string()))
        } else {
            Ok(())
        }
    }
}

struct Counting;

impl Procedure for Counting {
    fn exec(&mut self, _rule: &mut Rule) -> Result<(), ProcedureError> {
        Ok(())
    }
}

struct Failing;

impl Procedure for Failing {
    fn exec(&mut self, _rule: &mut Rule) -> Result<(), ProcedureError> {
        Err(ProcedureError::ExecFailed("boom".to_string()))
    }
}

type Factory = fn() -> Box<dyn Procedure>;

fn counting() -> Box<dyn Procedure> {
    Box::new(Counting)
}

fn failing() -> Box<dyn Procedure> {
    Box::new(Failing)
}

fn chain(proc: &str) -> (Graph, Plan, Registry<Factory>) {
    let mut reg: Registry<Factory> = Registry::new();
    reg.register("ok".to_string(), counting as Factory);
    reg.register("fail".to_string(), failing as Factory);
    let mut g = Graph::new();
    let a = g
        .add_rule(vec!["a".into()], vec!["b".into()], "".into(), "".into(), ProcedureId(proc.to_string()), &reg)
        .unwrap();
    let b = g
        .add_rule(vec!["b".into()], vec!["c".into()], "".into(), "".into(), ProcedureId(proc.to_string()), &reg)
        .unwrap();
    (g, Plan { rules: vec![a, b] }, reg)
}

fn run(plan: &Plan, graph: &Graph, reg: &Registry<Factory>, cache: &mut MemCache) -> Result<doze::ExecutionReport, ExecuteError> {
    let (mut exec, mut step) = execute(plan, graph);
    loop {
        let (e, s) = match step {
            Step::ReadSources(i) => {
                let src = format!("sources-of-{i}");
                exec.resume(plan, graph, Ok(src))
            }
            Step::CheckFresh(i, src) => {
                let fresh = cache.is_fresh(graph.rule_at(i).checksum_text(), &src);
                exec.resume_fresh(plan, graph, src, fresh)
            }
            Step::Run(i, src) => {
                let ran = graph.rule_at(i).execute(reg);
                exec.resume_ran(plan, graph, src, ran)
            }
            Step::Fetch(i, src) => {
                let r = cache.ensure_artifacts(graph.rule_at(i).checksum_text(), &src, graph.rule_at(i).output_tags());
                exec.resume_fetched(plan, graph, r)
            }
            Step::Store(i, src) => {
                let r = cache.store_artifacts(graph.rule_at(i).checksum_text(), &src, graph.rule_at(i).output_tags());
                exec.resume_stored(plan, graph, r)
            }
            Step::Flush => return exec.finish(plan, cache.flush()),
            Step::Done(res) => return res,
        };
        exec = e;
        step = s;
    }
}

#[test]
fn execute_runs_then_fetches() {
    let (g, plan, reg) = chain("ok");
    let mut cache = MemCache::default();
    let report = run(&plan, &g, &reg, &mut cache).unwrap();
    assert_eq!((report.executed, report.fetched), (2, 0));
    assert_eq!(cache.stored.len(), 2);
    let report = run(&plan, &g, &reg, &mut cache).unwrap();
    assert_eq!((report.executed, report.fetched), (0, 2));
    assert_eq!(cache.flushed, 2);
}

#[test]
fn freshness_decides_fetch_or_run() {
    let (g, plan, reg) = chain("ok");
    let (exec, step) = execute(&plan, &g);
    assert!(matches!(step, Step::ReadSources(0)));
    let (exec, step) = exec.resume(&plan, &g, Ok("s".to_string()));
    assert!(matches!(step, Step::CheckFresh(0, ref s) if s == "s"));
    let (exec, step) = exec.resume_fresh(&plan, &g, "s".to_string(), Ok(true));
    assert!(matches!(step, Step::Fetch(0, ref s) if s == "s"));
    let (exec, step) = exec.resume_fetched(&plan, &g, Ok(()));
    assert!(matches!(step, Step::ReadSources(1)));
    let (exec, step) = exec.resume(&plan, &g, Ok("t".to_string()));
    assert!(matches!(step, Step::CheckFresh(1, _)));
    let (exec, step) = exec.resume_fresh(&plan, &g, "t".to_string(), Ok(false));
    assert!(matches!(step, Step::Run(1, ref s) if s == "t"));
    let ran = g.rule_at(1).execute(&reg);
    let (exec, step) = exec.resume_ran(&plan, &g, "t".to_string(), ran);
    assert!(matches!(step, Step::Store(1, ref s) if s == "t"));
    let (exec, step) = exec.resume_stored(&plan, &g, Ok(()));
    assert!(matches!(step, Step::Flush));
    let report = exec.finish(&plan, Ok(())).unwrap();
    assert_eq!((report.executed, report.fetched), (1, 1));
}

#[test]
fn cache_failures_end_the_execution() {
    let (g, plan, _) = chain("ok");
    let (exec, _) = execute(&plan, &g);
    let (exec, _) = exec.resume(&plan, &g, Ok("s".to_string()));
    let (_, step) = exec.resume_fresh(&plan, &g, "s".to_string(), Err(CacheError::Io("down".to_string())));
    match step {
        Step::Done(Err(ExecuteError::Cache(CacheError::Io(m)))) => assert_eq!(m, "down"),
        _ => panic!("expected the cache's error"),
    }
    let (exec, _) = execute(&plan, &g);
    let (exec, _) = exec.resume(&plan, &g, Ok("s".to_string()));
    let (exec, _) = exec.resume_fresh(&plan, &g, "s".to_string(), Ok(true));
    let (_, step) = exec.resume_fetched(&plan, &g, Err(CacheError::NotFound("x".to_string())));
    assert!(matches!(step, Step::Done(Err(ExecuteError::Cache(CacheError::NotFound(_))))));
    let (exec, _) = execute(&Plan::new(), &g);
    assert!(matches!(exec.finish(&Plan::new(), Err(CacheError::Io("full".to_string()))), Err(ExecuteError::Cache(_))));
}

#[test]
fn a_failed_run_ends_the_execution() {
    let (g, plan, _) = chain("fail");
    let (exec, _) = execute(&plan, &g);
    let (exec, _) = exec.resume(&plan, &g, Ok("s".to_string()));
    let failure = RuleError::Procedure(ProcedureError::ExecFailed("boom".to_string()));
    let (_, step) = exec.resume_ran(&plan, &g, "s".to_string(), Err(failure));
    assert!(matches!(step, Step::Done(Err(ExecuteError::Rule(RuleError::Procedure(ProcedureError::ExecFailed(_)))))));
}

#[test]
fn create_calls_the_factory_under_the_name() {
    let mut reg: Registry<Factory> = Registry::new();
    reg.register("ok".to_string(), counting as Factory);
    reg.register("fail".to_string(), failing as Factory);
    let (g, _, _) = chain("fail");
    let (h, _, _) = chain("ok");
    assert!(matches!(
        g.rule_at(0).execute(&reg),
        Err(RuleError::Procedure(ProcedureError::ExecFailed(m))) if m == "boom"
    ));
    assert!(h.rule_at(0).execute(&reg).is_ok());
    // Registering again under a name replaces its factory.
    reg.register("fail".to_string(), counting as Factory);
    assert!(g.rule_at(0).execute(&reg).is_ok());
}

#[test]
fn execute_empty_plan_flushes() {
    let (g, _, reg) = chain("ok");
    let mut cache = MemCache::default();
    let report = run(&Plan::new(), &g, &reg, &mut cache).unwrap();
    assert_eq!((report.executed, report.fetched), (0, 0));
    assert_eq!(cache.flushed, 1);
    cache.fail_flush = true;
    assert!(matches!(run(&Plan::new(), &g, &reg, &mut cache), Err(ExecuteError::Cache(_))));
}

#[test]
fn execute_unknown_rule() {
    let (g, _, reg) = chain("ok");
    let mut cache = MemCache::default();
    let plan = Plan { rules: vec!["nope".to_string()] };
    match run(&plan, &g, &reg, &mut cache) {
        Err(ExecuteError::RuleNotFound(id)) => assert_eq!(id, "nope"),
        _ => panic!("expected RuleNotFound"),
    }
    assert_eq!(ExecuteError::RuleNotFound("x".to_string()).to_string(), "rule [x] resolved for execution but doesn't exist");
}

#[test]
fn execute_reports_procedure_failure() {
    let (g, plan, reg) = chain("fail");
    let mut cache = MemCache::default();
    match run(&plan, &g, &reg, &mut cache) {
        Err(ExecuteError::Rule(RuleError::Procedure(ProcedureError::ExecFailed(m)))) => assert_eq!(m, "boom"),
        _ => panic!("expected a failed procedure"),
    }
    assert!(cache.stored.is_empty());
    assert_eq!(cache.flushed, 0);
}

#[test]
fn execute_reports_unreadable_sources() {
    let (g, plan, reg) = chain("ok");
    let mut cache = MemCache::default();
    let (exec, step) = execute(&plan, &g);
    assert!(matches!(step, Step::ReadSources(0)));
    let failure = RuleError::SourceReadFailed("a".to_string(), "missing".to_string());
    let (_, step) = exec.resume(&plan, &g, Err(failure));
    match step {
        Step::Done(Err(ExecuteError::Rule(e))) => {
            assert_eq!(e.to_string(), "could not open artifact (a) for reading: missing")
        }
        _ => panic!("expected a read failure"),
    }
}

#[test]
fn copy_pairs_inputs_with_outputs() {
    let mut reg: Registry<Factory> = Registry::new();
    reg.register("utils:copy".to_string(), counting as Factory);
    let mut g = Graph::new();
    g.add_rule(vec!["a".into(), "b".into()], vec!["c".into(), "d".into()], "".into(), "".into(), ProcedureId("utils:copy".into()), &reg)
        .unwrap();
    g.add_rule(vec!["x".into()], vec!["y".into(), "z".into()], "".into(), "".into(), ProcedureId("utils:copy".into()), &reg)
        .unwrap();
    let pairs = doze::copy::Copy::copies(g.rule_at(0)).unwrap();
    assert_eq!(pairs, vec![("a".to_string(), "c".to_string()), ("b".to_string(), "d".to_string())]);
    match doze::copy::Copy::copies(g.rule_at(1)) {
        Err(ProcedureError::ExecFailed(m)) => {
            assert_eq!(m, "received unequal amount of input and output artifacts: 1 and 2")
        }
        _ => panic!("expected unequal counts"),
    }
}

#[test]
fn log_directory() {
    assert_eq!(doze::log_dir(), ".doze/logs");
}
