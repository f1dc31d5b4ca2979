# doze

A small build engine, verified with Verus. Rules turn input artifacts (files)
into output artifacts through named procedures; a graph links the rules by
their artifacts; a resolver orders the rules with Kahn's algorithm; an
executor runs the plan, fetching outputs from a cache when the sources of a
rule have not changed.

Layout:

- `src/` — the verified library.
  - `rule.rs`: rules, their checksums (MD5 of their tags and procedure name,
    hex-encoded; a framed form with counts and lengths names a rule whose
    plain checksum is already taken by a rule with other data), the
    canonical order of tags, source checksums.
  - `graph.rs`: the graph and `add_rule`, with the invariant that ties the
    artifacts' readers and writers to the rules and keeps one writer per tag.
  - `resolver.rs`: primordial rules, Kahn's algorithm with an exact
    specification, the resolver, which plans from the ledger's answers.
  - `schedule.rs`: what a plan promises: each rule at most once and after the
    writers of its inputs; a cycle error exactly when no such order of all
    the rules exists; in full mode every rule; in terse mode none of the seen
    rules nor their readers.
  - `execute.rs`: the executor as a step machine; the caller reads each
    rule's sources, runs the rule and does the cache's work when asked, and
    hands back what came of it.
  - `procedure.rs`, `cache.rs`, `copy.rs`, `logs.rs`, `artifact.rs`,
    `text.rs`: registry, cache traits and the in-memory part of the local
    cache, the copy procedure's plan, paths and strings.
  - `doze.rs`: the first sketch of the engine.
- `app/` — the command line: logging, the on-disk cache, reading sources,
  the built-in procedures, and the loops that drive the library.
- `tests/` — tests of the library.
